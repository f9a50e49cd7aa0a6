// End-to-end scenarios: playback, mixing, export, resampling, recording.

use op_engine::wav::quant16_exec;
use op_engine::ClipId;
use op_engine::{
    timeline_update, track_update, BufferSize, Clip, Generator, NoteEvent, Player, PlayerError,
    Project, StreamConfig, Timeline, TimelineMessage, TrackMessage,
};

const U: i32 = 1_000_000;

#[test]
fn test_nonoverlapping_playback() {
    // {t=1,[1,1]} and {t=4,[2,2]} over [0,7) -> [0,1,1,0,2,2,0]
    let mut project = Project::new();
    let a = project.add_clip(Clip::new(vec![U, U]));
    let b = project.add_clip(Clip::new(vec![2 * U, 2 * U]));
    project.place_clip(0, 1, a);
    project.place_clip(0, 4, b);
    let mut buf = vec![0i32; 7];
    project.timeline.tracks[0].render(&project.clip_database, 0, &mut buf);
    assert_eq!(buf, vec![0, U, U, 0, 2 * U, 2 * U, 0]);
}

#[test]
fn test_overlap_later_dominates() {
    // {t=0,[1x5]} then {t=2,[2x5]} over 8 -> [1,1,2,2,2,2,2,0]
    let mut project = Project::new();
    let a = project.add_clip(Clip::new(vec![U; 5]));
    let b = project.add_clip(Clip::new(vec![2 * U; 5]));
    project.place_clip(0, 0, a);
    project.place_clip(0, 2, b);
    let mut buf = vec![0i32; 8];
    project.timeline.tracks[0].render(&project.clip_database, 0, &mut buf);
    assert_eq!(buf, vec![U, U, 2 * U, 2 * U, 2 * U, 2 * U, 2 * U, 0]);
}

#[test]
fn test_overlap_short_clip_truncates() {
    // {t=0,[1x5]} then {t=2,[2]} over 5 -> [1,1,2,0,0]
    let mut project = Project::new();
    let a = project.add_clip(Clip::new(vec![U; 5]));
    let b = project.add_clip(Clip::new(vec![2 * U]));
    project.place_clip(0, 0, a);
    project.place_clip(0, 2, b);
    let mut buf = vec![0i32; 5];
    project.timeline.tracks[0].render(&project.clip_database, 0, &mut buf);
    assert_eq!(buf, vec![U, U, 2 * U, 0, 0]);
}

#[test]
fn test_timeline_mix_sum_and_clamp() {
    // track A {t=0,[0.7,0.7,0.7]}; track B {t=0,[0.7,0.7,-0.3]}
    // mix -> [1.0, 1.0, 0.4]
    let mut project = Project::new();
    let a = project.add_clip(Clip::new(vec![700_000, 700_000, 700_000]));
    let b = project.add_clip(Clip::new(vec![700_000, 700_000, -300_000]));
    project.place_clip(0, 0, a);
    project.place_clip(1, 0, b);
    let mut buf = vec![0i32; 3];
    project.timeline.render(&project.clip_database, 0, &mut buf);
    assert_eq!(buf, vec![U, U, 400_000]);

    // The full render agrees with the windowed render element-wise.
    let all = project.timeline.render_all(&project.clip_database);
    assert_eq!(all, buf);
}

#[test]
fn test_export_wav() {
    // project @ 44100, {t=0,[1.0,-1.0,0.0]} on track 0:
    // mono 16-bit 44100 Hz, 3 frames, samples [32767, -32767, 0]
    let mut project = Project::new();
    let c = project.add_clip(Clip::new(vec![U, -U, 0]));
    project.place_clip(0, 0, c);
    let bytes = project.export_wav().unwrap();

    assert_eq!(&bytes[0..4], b"RIFF");
    assert_eq!(&bytes[8..12], b"WAVE");
    // fmt chunk: PCM, mono, 44100 Hz, 16 bits
    assert_eq!(u16::from_le_bytes([bytes[20], bytes[21]]), 1);
    assert_eq!(u16::from_le_bytes([bytes[22], bytes[23]]), 1);
    assert_eq!(
        u32::from_le_bytes([bytes[24], bytes[25], bytes[26], bytes[27]]),
        44100
    );
    assert_eq!(u16::from_le_bytes([bytes[34], bytes[35]]), 16);
    // data chunk: 3 frames of 2 bytes
    assert_eq!(&bytes[36..40], b"data");
    assert_eq!(
        u32::from_le_bytes([bytes[40], bytes[41], bytes[42], bytes[43]]),
        6
    );
    assert_eq!(bytes.len(), 50);
    let s0 = i16::from_le_bytes([bytes[44], bytes[45]]);
    let s1 = i16::from_le_bytes([bytes[46], bytes[47]]);
    let s2 = i16::from_le_bytes([bytes[48], bytes[49]]);
    assert_eq!([s0, s1, s2], [32767, -32767, 0]);
}

#[test]
fn test_export_reload_roundtrip() {
    // exportWav, reload, render: equal within quantization error 1/32767.
    let mut project = Project::new();
    let c = project.add_clip(Clip::new(vec![U, -U, 0, 500_000, -123_456, 700_000]));
    project.place_clip(0, 0, c);
    let rendered = project.timeline.render_all(&project.clip_database);

    let bytes = project.export_wav().unwrap();
    let reloaded = Clip::load_wav(44100, &bytes).unwrap();
    assert_eq!(reloaded.data.len(), rendered.len());
    for (a, b) in reloaded.data.iter().zip(rendered.iter()) {
        // 1/32767 of full scale is about 31 fixed-point units.
        assert!((a - b).abs() <= 31, "{} vs {}", a, b);
    }
}

#[test]
fn test_load_wav_rejects_wrong_rate() {
    let mut project = Project::new();
    let c = project.add_clip(Clip::new(vec![U]));
    project.place_clip(0, 0, c);
    let bytes = project.export_wav().unwrap();
    match Clip::load_wav(48000, &bytes) {
        Err(op_engine::ClipError::WrongSampleRate { sample_rate }) => {
            assert_eq!(sample_rate, 44100)
        },
        other => panic!("expected a sample-rate rejection, got {:?}", other),
    }
}

#[test]
fn test_load_wav_rejects_unsupported_bits() {
    let mut project = Project::new();
    let c = project.add_clip(Clip::new(vec![U]));
    project.place_clip(0, 0, c);
    let mut bytes = project.export_wav().unwrap();
    // Rewrite the bit depth to 12: not an integer PCM depth this decoder
    // supports.
    bytes[34] = 12;
    match Clip::load_wav(44100, &bytes) {
        Err(op_engine::ClipError::UnsupportedSampleFormat { bits_per_sample }) => {
            assert_eq!(bits_per_sample, 12)
        },
        other => panic!("expected an unsupported-format rejection, got {:?}", other),
    }
}

#[test]
fn test_load_wav_eight_bit() {
    // 8-bit integer PCM stores unsigned bytes centered on 128 and
    // normalizes by 127: 255 -> full scale, 128 -> silence.
    let mut bytes: Vec<u8> = Vec::new();
    bytes.extend_from_slice(b"RIFF");
    bytes.extend_from_slice(&39u32.to_le_bytes());
    bytes.extend_from_slice(b"WAVE");
    bytes.extend_from_slice(b"fmt ");
    bytes.extend_from_slice(&16u32.to_le_bytes());
    bytes.extend_from_slice(&1u16.to_le_bytes());
    bytes.extend_from_slice(&1u16.to_le_bytes());
    bytes.extend_from_slice(&44100u32.to_le_bytes());
    bytes.extend_from_slice(&44100u32.to_le_bytes());
    bytes.extend_from_slice(&1u16.to_le_bytes());
    bytes.extend_from_slice(&8u16.to_le_bytes());
    bytes.extend_from_slice(b"data");
    bytes.extend_from_slice(&3u32.to_le_bytes());
    bytes.extend_from_slice(&[255, 0, 128]);
    let clip = Clip::load_wav(44100, &bytes).unwrap();
    assert_eq!(clip.data, vec![1_000_000, -1_007_874, 0]);
}

#[test]
fn test_load_wav_rejects_garbage() {
    let bytes = vec![1u8, 2, 3, 4, 5];
    assert!(matches!(
        Clip::load_wav(44100, &bytes),
        Err(op_engine::ClipError::ClipReadError)
    ));
}

fn fixed_player(frames: u32, rate: u32, channels: u16) -> Player {
    Player::new(StreamConfig {
        channels,
        sample_rate: rate,
        buffer_size: BufferSize::Fixed(frames),
    })
    .unwrap()
}

#[test]
fn test_player_rejects_default_buffer_size() {
    let result = Player::new(StreamConfig {
        channels: 2,
        sample_rate: 44100,
        buffer_size: BufferSize::Default,
    });
    assert!(matches!(
        result,
        Err(PlayerError::InvalidBufferSize(BufferSize::Default))
    ));
}

#[test]
fn test_equal_rate_playback_copies_to_all_channels() {
    // At equal rates every channel of frame i carries scratch sample i.
    let mut project = Project::new();
    let c = project.add_clip(Clip::new(vec![100, 200, 300, 400]));
    project.place_clip(0, 0, c);
    let mut player = fixed_player(4, 44100, 2);
    player.playing_project = true;
    let mut out = vec![0i32; 8];
    player.write_next_block(&mut project, &mut out, 2);
    assert_eq!(out, vec![100, 100, 200, 200, 300, 300, 400, 400]);
    assert_eq!(player.time, 4);
}

#[test]
fn test_resampled_output_fills_every_frame() {
    // At differing rates the output still carries one value per frame.
    let mut project = Project::new();
    let c = project.add_clip(Clip::new(vec![U; 500]));
    project.place_clip(0, 0, c);
    let mut player = fixed_player(100, 48000, 2);
    player.playing_project = true;
    let mut out = vec![7i32; 200];
    player.write_next_block(&mut project, &mut out, 2);
    assert_eq!(out.len(), 200);
    // source position 0 maps to the first rendered sample on both channels
    assert_eq!(out[0], U);
    assert_eq!(out[1], U);
}

#[test]
fn test_playhead_wraps_after_timeline_end() {
    let mut project = Project::new();
    let c = project.add_clip(Clip::new(vec![U; 4]));
    project.place_clip(0, 0, c);
    let mut player = fixed_player(8, 44100, 1);
    player.playing_project = true;
    let mut out = vec![0i32; 8];
    player.write_next_block(&mut project, &mut out, 1);
    // 8 samples rendered past a 4-sample timeline: the playhead wraps.
    assert_eq!(player.time, 0);
}

#[test]
fn test_record_capture() {
    // Sine at key 69 (440 Hz), Rs == Rd == 44100; record 4410 samples on
    // track 1; exactly one new placement at t=0 of length 4410 whose
    // samples match sin(2*pi*440*n/44100) within 1e-4.
    let mut project = Project::new();
    project.generator.handle(NoteEvent::NoteOn { key: 69, vel: 127 });
    let mut player = fixed_player(441, 44100, 1);
    player.playing_project = true;
    player.set_recording(&mut project, true, 1);
    assert_eq!(player.record_start, 0);
    for _ in 0..10 {
        let mut out = vec![0i32; 441];
        player.write_next_block(&mut project, &mut out, 1);
    }
    player.set_recording(&mut project, false, 1);

    let clips: Vec<_> = project.timeline.tracks[1].iter_clips().to_vec();
    assert_eq!(clips.len(), 1);
    assert_eq!(clips[0].time, 0);
    let clip = project.clip_database.get(clips[0].clip_id).unwrap();
    assert_eq!(clip.data.len(), 4410);
    for n in 0..4410usize {
        let expected = (2.0 * std::f64::consts::PI * 440.0 * ((n + 1) as f64) / 44100.0).sin();
        let got = clip.data[n] as f64 / 1_000_000.0;
        assert!(
            (got - expected).abs() <= 1e-4,
            "sample {}: {} vs {}",
            n,
            got,
            expected
        );
    }
}

#[test]
fn test_note_off_other_key_keeps_note() {
    let mut project = Project::new();
    project.generator.handle(NoteEvent::NoteOn { key: 60, vel: 100 });
    project.generator.handle(NoteEvent::NoteOff { key: 61, vel: 0 });
    // A note-off for a different key does not cut the held note.
    let s = project.generator.next();
    assert!(s != 0);
    project.generator.handle(NoteEvent::NoteOff { key: 60, vel: 0 });
    assert_eq!(project.generator.next(), 0);
}

#[test]
fn test_control_change_is_ignored() {
    let mut project = Project::new();
    project.generator.handle(NoteEvent::ControlChange { controller: 1, value: 64 });
    assert_eq!(project.generator.next(), 0);
}

#[test]
fn test_silent_recording_is_discarded() {
    // Stopping with an empty capture buffer places nothing.
    let mut project = Project::new();
    let mut player = fixed_player(64, 44100, 1);
    player.set_recording(&mut project, true, 0);
    player.set_recording(&mut project, false, 0);
    assert_eq!(project.timeline.tracks[0].iter_clips().len(), 0);
    assert_eq!(project.clip_database.len(), 0);
}

#[test]
fn test_timeline_updates() {
    let mut project = Project::new();
    let c = project.add_clip(Clip::new(vec![U]));
    project.place_clip(2, 7, c);

    timeline_update(
        &mut project.timeline,
        TimelineMessage::Track(2, TrackMessage::MoveClip { clip_id: c, delta_samples: 3 }),
    );
    assert_eq!(project.timeline.tracks[2].iter_clips()[0].time, 10);

    track_update(
        &mut project.timeline.tracks[2],
        TrackMessage::MoveClip { clip_id: c, delta_samples: -99 },
    );
    assert_eq!(project.timeline.tracks[2].iter_clips()[0].time, 0);
}

#[test]
fn test_timeline_iter_clips() {
    let mut project = Project::new();
    let a = project.add_clip(Clip::new(vec![U]));
    let b = project.add_clip(Clip::new(vec![U]));
    project.place_clip(1, 5, a);
    project.place_clip(3, 2, b);
    let timeline: &Timeline = &project.timeline;
    let all = timeline.iter_clips();
    assert_eq!(all.len(), 2);
    assert_eq!(all[0].0, 1);
    assert_eq!(all[0].1.time, 5);
    assert_eq!(all[1].0, 3);
    assert_eq!(all[1].1.time, 2);
}

#[test]
fn test_quantization_values() {
    assert_eq!(quant16_exec(U), 32767);
    assert_eq!(quant16_exec(-U), -32767);
    assert_eq!(quant16_exec(0), 0);
    assert_eq!(quant16_exec(700_000), 22937);
    // Amplitudes beyond full scale clamp before quantization.
    assert_eq!(quant16_exec(3 * U), 32767);
    assert_eq!(quant16_exec(-3 * U), -32767);
}

#[test]
fn test_seconds_conversion() {
    let project = Project::new();
    assert_eq!(project.sec_to_samples(1_000_000), 44100);
    assert_eq!(project.sec_to_samples(500_000), 22050);
    assert_eq!(project.sec_to_samples(0), 0);
    assert_eq!(project.samples_to_sec(44100), 1_000_000);
    assert_eq!(project.samples_to_sec(22050), 500_000);
}

#[test]
fn test_render_exclude_skips_track() {
    let mut project = Project::new();
    let a = project.add_clip(Clip::new(vec![300_000; 3]));
    let b = project.add_clip(Clip::new(vec![400_000; 3]));
    project.place_clip(0, 0, a);
    project.place_clip(1, 0, b);
    let mut buf = vec![0i32; 3];
    let exclude = vec![1usize];
    project
        .timeline
        .render_exclude(&project.clip_database, 0, &mut buf, &exclude);
    assert_eq!(buf, vec![300_000; 3]);
}

#[test]
fn test_absent_clip_id_is_skipped() {
    let mut track = op_engine::Track::new();
    let db = op_engine::ClipDatabase::new();
    // A placement whose identifier was never issued plays silence.
    track.instantiate_clip(ClipId(7), 1);
    let mut buf = vec![9i32; 3];
    track.render(&db, 0, &mut buf);
    assert_eq!(buf, vec![0, 0, 0]);
    assert!(db.get(ClipId(7)).is_none());
}
