//! The player: the pull-driven scheduler that renders the timeline at the
//! playhead, layers in the live instrument, captures recordings, and
//! resamples to the host rate.

use vstd::prelude::*;

use crate::clip_database::ClipId;
use crate::generator::Generator;
use crate::project::Project;
use crate::sample::clamp_spec;
use crate::sine::{sine_after_next, sine_output, SineGenerator};
use crate::timeline::{timeline_len_spec, timeline_sample};
use crate::track::ClipInstance;
use vstd::arithmetic::div_mod::{
    lemma_div_by_multiple, lemma_div_is_ordered, lemma_div_multiples_vanish_fancy,
    lemma_fundamental_div_mod,
};

verus! {

/// The host stream's buffer size: a fixed frame count, or whatever default
/// the host picked (which the player rejects).
#[derive(Debug, Clone, Copy, PartialEq, Eq, Structural)]
pub enum BufferSize {
    Default,
    Fixed(u32),
}

/// The host stream shape the player was built for.
#[derive(Debug, Clone, Copy, PartialEq, Eq, Structural)]
pub struct StreamConfig {
    pub channels: u16,
    pub sample_rate: u32,
    pub buffer_size: BufferSize,
}

/// Why a player could not be built.
#[derive(Debug, Clone, Copy, PartialEq, Eq, Structural)]
pub enum PlayerError {
    /// The host stream was not configured with a fixed buffer size.
    InvalidBufferSize(BufferSize),
}

/// The instrument state after `k` pulled samples.
pub open spec fn gen_after(g: SineGenerator, k: int) -> SineGenerator
    decreases k,
{
    if k <= 0 {
        g
    } else {
        sine_after_next(gen_after(g, k - 1))
    }
}

/// The instrument's output stream: sample `i` of `k` pulled samples.
pub open spec fn gen_sample(g: SineGenerator, i: int) -> int {
    sine_output(gen_after(g, i))
}

/// The instrument samples recorded over `k` pulls.
pub open spec fn recorded_samples(g: SineGenerator, k: int) -> Seq<i32> {
    Seq::new(k as nat, |i: int| gen_sample(g, i) as i32)
}

/// How many source-rate samples serve one host block: the host frame count
/// scaled by the rate ratio, rounded.
pub open spec fn produce_src_len(dst_frames: int, src_rate: int, dst_rate: int) -> int {
    (dst_frames * src_rate + dst_rate / 2) / dst_rate
}

/// The scratch buffer's sample `i`: the timeline at the playhead (silence
/// when paused) plus the instrument, clamped.
pub open spec fn produce_scratch_at(
    db: Seq<Seq<i32>>,
    tracks: Seq<Seq<ClipInstance>>,
    playing: bool,
    g: SineGenerator,
    playhead: int,
    i: int,
) -> int {
    clamp_spec(produce_base_at(db, tracks, playing, playhead, i) + gen_sample(g, i))
}

/// What the timeline itself contributes at scratch position `i`: silence
/// while paused.
pub open spec fn produce_base_at(
    db: Seq<Seq<i32>>,
    tracks: Seq<Seq<ClipInstance>>,
    playing: bool,
    playhead: int,
    i: int,
) -> int {
    if playing {
        timeline_sample(db, tracks, Seq::<usize>::empty(), playhead, playhead + i)
    } else {
        0
    }
}

/// A sample buffer read as mathematical integers.
pub open spec fn samples_as_ints(s: Seq<i32>) -> Seq<int> {
    s.map_values(|x: i32| x as int)
}

/// The scratch buffer contents for one block of `src_len` source samples.
pub open spec fn scratch_seq(
    db: Seq<Seq<i32>>,
    tracks: Seq<Seq<ClipInstance>>,
    playing: bool,
    g: SineGenerator,
    playhead: int,
    src_len: int,
) -> Seq<int> {
    Seq::new(src_len as nat, |i: int| produce_scratch_at(db, tracks, playing, g, playhead, i))
}

/// The playhead after one block: advanced by the source sample count while
/// playing, wrapping to zero past the timeline end unless recording.
pub open spec fn produce_playhead(
    time: int,
    src_len: int,
    playing: bool,
    recording: bool,
    timeline_len: int,
) -> int {
    if playing {
        if time + src_len > timeline_len && !recording {
            0
        } else {
            time + src_len
        }
    } else {
        time
    }
}

/// Linear interpolation at output frame `j` over a scratch block: the
/// source position is `j * src_rate / dst_rate`; positions are clamped to
/// the block. Evaluated on the shifted non-negative scale so that integer
/// division is exact floor.
pub open spec fn resample_at(sc: Seq<int>, j: int, src_rate: int, dst_rate: int) -> int {
    if sc.len() == 0 {
        0
    } else {
        let pos = j * src_rate;
        let i0 = pos / dst_rate;
        let fr = pos % dst_rate;
        let a = sc[if i0 < sc.len() - 1 {
            i0
        } else {
            sc.len() - 1
        }];
        let b = sc[if i0 + 1 < sc.len() - 1 {
            i0 + 1
        } else {
            sc.len() - 1
        }];
        ((a + 1_000_000) * (dst_rate - fr) + (b + 1_000_000) * fr) / dst_rate - 1_000_000
    }
}

/// What one host output frame carries on every channel: the scratch sample
/// itself at equal rates, else the interpolated sample.
pub open spec fn produce_out_at(
    db: Seq<Seq<i32>>,
    tracks: Seq<Seq<ClipInstance>>,
    playing: bool,
    g: SineGenerator,
    playhead: int,
    src_len: int,
    src_rate: int,
    dst_rate: int,
    frame: int,
) -> int {
    if src_rate == dst_rate {
        produce_scratch_at(db, tracks, playing, g, playhead, frame)
    } else {
        resample_at(scratch_seq(db, tracks, playing, g, playhead, src_len), frame, src_rate, dst_rate)
    }
}

/// One linearly interpolated output frame over a rendered scratch block.
fn resample_frame(scratch: &Vec<i32>, src_len: usize, f: usize, src_rate: u32, dst_rate: u32) -> (r:
    i32)
    requires
        dst_rate >= 1,
        src_len <= scratch@.len(),
        forall|k: int| 0 <= k < src_len ==> -1_000_000 <= #[trigger] (scratch@[k] as int) <= 1_000_000,
    ensures
        r as int == resample_at(
            samples_as_ints(scratch@.take(src_len as int)),
            f as int,
            src_rate as int,
            dst_rate as int,
        ),
{
    let ghost sc = samples_as_ints(scratch@.take(src_len as int));
    if src_len == 0 {
        return 0;
    }
    proof {
        assert(f as int * src_rate as int <= 0xFFFF_FFFF_FFFF_FFFF * 0xFFFF_FFFFint)
            by (nonlinear_arith)
            requires
                0 <= f as int <= 0xFFFF_FFFF_FFFF_FFFF,
                0 <= src_rate as int <= 0xFFFF_FFFF,
        ;
    }
    let pos: u128 = (f as u128) * (src_rate as u128);
    let i0w: u128 = pos / (dst_rate as u128);
    let frw: u128 = pos % (dst_rate as u128);
    let last: usize = src_len - 1;
    let ia: usize = if i0w < last as u128 {
        i0w as usize
    } else {
        last
    };
    let ib: usize = if i0w < last as u128 {
        if ia + 1 < last {
            ia + 1
        } else {
            last
        }
    } else {
        last
    };
    let a = scratch[ia];
    let b = scratch[ib];
    proof {
        assert(sc.len() == src_len);
        assert(sc[ia as int] == a as int && sc[ib as int] == b as int);
        assert(-1_000_000 <= a as int <= 1_000_000);
        assert(-1_000_000 <= b as int <= 1_000_000);
    }
    let na: u128 = (a + 1_000_000) as u128;
    let nb: u128 = (b + 1_000_000) as u128;
    proof {
        assert(na * ((dst_rate as int) - frw) + nb * frw <= 2_000_000 * (dst_rate as int))
            by (nonlinear_arith)
            requires
                0 <= na <= 2_000_000,
                0 <= nb <= 2_000_000,
                0 <= frw < dst_rate as int,
        ;
    }
    let num: u128 = na * ((dst_rate as u128) - frw) + nb * frw;
    let shifted: u128 = num / (dst_rate as u128);
    proof {
        lemma_div_is_ordered(num as int, 2_000_000 * (dst_rate as int), dst_rate as int);
        lemma_div_by_multiple(2_000_000int, dst_rate as int);
        assert((2_000_000int * (dst_rate as int)) / (dst_rate as int) == 2_000_000int);
        assert(shifted <= 2_000_000);
    }
    (shifted as i32) - 1_000_000
}

/// The real-time producer: owns the playhead, transport and record state,
/// a reusable scratch buffer, and the host stream shape.
#[derive(Debug)]
pub struct Player {
    pub config: StreamConfig,
    pub output_buf: Vec<i32>,
    pub playing_project: bool,
    pub time: crate::Time,
    pub recording: bool,
    pub record_track: usize,
    pub record_start: crate::Time,
    pub record_buf: Vec<i32>,
}

impl Player {
    /// A paused player for a host stream with a fixed buffer size; any
    /// other buffer size is rejected.
    pub fn new(config: StreamConfig) -> (r: Result<Player, PlayerError>)
        ensures
            match config.buffer_size {
                BufferSize::Fixed(frames) => r matches Ok(p) && p.config == config
                    && p.output_buf@ == Seq::new(frames as nat, |i: int| 0i32)
                    && p.playing_project == false && p.time == 0 && p.recording == false
                    && p.record_track == 0 && p.record_start == 0 && p.record_buf@
                    == Seq::<i32>::empty(),
                BufferSize::Default => r == Err::<Player, PlayerError>(
                    PlayerError::InvalidBufferSize(config.buffer_size),
                ),
            },
    {
        let buf_size: usize = match config.buffer_size {
            BufferSize::Fixed(frame_count) => frame_count as usize,
            BufferSize::Default => {
                return Err(PlayerError::InvalidBufferSize(config.buffer_size));
            },
        };
        Ok(
            Player {
                config,
                output_buf: vec![0i32; buf_size],
                playing_project: false,
                time: 0,
                recording: false,
                record_track: 0,
                record_start: 0,
                record_buf: Vec::new(),
            },
        )
    }

    /// Move the playhead.
    pub fn seek(&mut self, time: crate::Time)
        ensures
            *final(self) == (Player { time, ..*old(self) }),
    {
        self.time = time;
    }

    /// The playhead: the next source sample the player will render.
    pub fn time(&self) -> (r: crate::Time)
        ensures
            r == self.time,
    {
        self.time
    }

    /// Arm or stop recording. Arming captures the record start and clears
    /// the capture buffer; stopping with a non-empty capture stores it as a
    /// new clip placed on the armed track at the captured start. Toggling
    /// to the current state is a no-op.
    pub fn set_recording(&mut self, project: &mut Project, recording: bool, record_track: usize)
        requires
            old(self).recording && !recording && old(self).record_buf@.len() > 0 ==> old(self).record_track < old(project).timeline@.len(),
        ensures
            old(self).recording == recording ==> *final(self) == *old(self) && final(project).timeline@ == old(project).timeline@ && final(project).clip_database@ == old(project).clip_database@,
            !old(self).recording && recording ==> *final(self) == (Player {
                recording: true,
                record_start: old(self).time,
                record_track,
                record_buf: final(self).record_buf,
                ..*old(self)
            }) && final(self).record_buf@ == Seq::<i32>::empty() && final(project).timeline@ == old(project).timeline@ && final(project).clip_database@ == old(project).clip_database@,
            old(self).recording && !recording ==> *final(self) == (Player {
                recording: false,
                record_buf: final(self).record_buf,
                ..*old(self)
            }) && final(self).record_buf@ == Seq::<i32>::empty() && (if old(self).record_buf@.len() > 0 {
                final(project).clip_database@ == old(project).clip_database@.push(
                    old(self).record_buf@,
                ) && final(project).timeline@ == old(project).timeline@.update(
                    old(self).record_track as int,
                    old(project).timeline@[old(self).record_track as int].push(
                        ClipInstance {
                            time: old(self).record_start,
                            clip_id: ClipId(old(project).clip_database@.len() as usize),
                        },
                    ),
                )
            } else {
                final(project).timeline@ == old(project).timeline@ && final(project).clip_database@ == old(project).clip_database@
            }),
            final(project).sample_rate == old(project).sample_rate,
            final(project).generator == old(project).generator,
    {
        if self.recording == recording {
            return ;
        }
        self.recording = recording;
        if !recording && self.record_buf.len() > 0 {
            let mut data: Vec<i32> = Vec::new();
            core::mem::swap(&mut data, &mut self.record_buf);
            let clip = crate::clip::Clip::new(data);
            let id = project.clip_database.add(clip);
            proof {
                assert(id == ClipId(old(project).clip_database@.len() as usize));
            }
            self.place_recorded(project, id);
        } else if recording {
            self.record_start = self.time;
            self.record_track = record_track;
            self.record_buf.clear();
        }
    }

    /// Place a stopped recording's clip on the armed track.
    fn place_recorded(&self, project: &mut Project, id: ClipId)
        requires
            self.record_track < old(project).timeline@.len(),
        ensures
            final(project).timeline@ == old(project).timeline@.update(
                self.record_track as int,
                old(project).timeline@[self.record_track as int].push(
                    ClipInstance { time: self.record_start, clip_id: id },
                ),
            ),
            final(project).clip_database@ == old(project).clip_database@,
            final(project).sample_rate == old(project).sample_rate,
            final(project).generator == old(project).generator,
    {
        project.timeline.tracks[self.record_track].instantiate_clip(id, self.record_start);
        proof {
            assert(project.timeline@ =~= old(project).timeline@.update(
                self.record_track as int,
                old(project).timeline@[self.record_track as int].push(
                    ClipInstance { time: self.record_start, clip_id: id },
                ),
            ));
        }
    }

    /// Fill one host block: render the timeline at the playhead (while
    /// playing), advance and possibly wrap the playhead, add one instrument
    /// sample per source sample (recording them while armed and playing),
    /// and write the block to every output channel, resampling when the
    /// host rate differs from the project rate.
    pub fn write_next_block(&mut self, project: &mut Project, output: &mut Vec<i32>, channels: usize)
        requires
            channels >= 1,
            old(output)@.len() as int % channels as int == 0,
            old(self).config.sample_rate >= 1,
            old(project).sample_rate >= 1,
            produce_src_len(
                old(output)@.len() as int / channels as int,
                old(project).sample_rate as int,
                old(self).config.sample_rate as int,
            ) <= usize::MAX,
            old(self).playing_project ==> old(project).timeline@.len() > 0 && timeline_len_spec(
                old(project).clip_database@,
                old(project).timeline@,
            ) <= usize::MAX && old(self).time + produce_src_len(
                old(output)@.len() as int / channels as int,
                old(project).sample_rate as int,
                old(self).config.sample_rate as int,
            ) <= usize::MAX,
            old(self).record_buf@.len() + produce_src_len(
                old(output)@.len() as int / channels as int,
                old(project).sample_rate as int,
                old(self).config.sample_rate as int,
            ) <= usize::MAX,
        ensures
            ({
                let src_len = produce_src_len(
                    old(output)@.len() as int / channels as int,
                    old(project).sample_rate as int,
                    old(self).config.sample_rate as int,
                );
                let db = old(project).clip_database@;
                let tracks = old(project).timeline@;
                let g = old(project).generator;
                let playing = old(self).playing_project;
                &&& final(project).sample_rate == old(project).sample_rate
                &&& final(project).clip_database@ == db
                &&& final(project).timeline@ == tracks
                &&& final(project).generator == gen_after(g, src_len)
                &&& final(self).config == old(self).config
                &&& final(self).playing_project == playing
                &&& final(self).recording == old(self).recording
                &&& final(self).record_track == old(self).record_track
                &&& final(self).record_start == old(self).record_start
                &&& final(self).time as int == produce_playhead(
                    old(self).time as int,
                    src_len,
                    playing,
                    old(self).recording,
                    if playing {
                        timeline_len_spec(db, tracks)
                    } else {
                        0
                    },
                )
                &&& final(self).record_buf@ == if playing && old(self).recording {
                    old(self).record_buf@ + recorded_samples(g, src_len)
                } else {
                    old(self).record_buf@
                }
                &&& final(output)@.len() == old(output)@.len()
                &&& forall|j: int|
                    0 <= j < old(output)@.len() ==> final(output)@[j] as int == produce_out_at(
                        db,
                        tracks,
                        playing,
                        g,
                        old(self).time as int,
                        src_len,
                        old(project).sample_rate as int,
                        old(self).config.sample_rate as int,
                        j / channels as int,
                    )
            }),
    {
        let len = output.len();
        let dst_frames = len / channels;
        let src_rate = project.sample_rate;
        let dst_rate = self.config.sample_rate;
        let ghost g0 = project.generator;
        let ghost db0 = project.clip_database@;
        let ghost tl0 = project.timeline@;
        let ghost time0 = self.time as int;
        let ghost playing = self.playing_project;
        let ghost rb0 = self.record_buf@;

        proof {
            lemma_fundamental_div_mod(len as int, channels as int);
            assert(dst_frames as int * src_rate as int <= 0xFFFF_FFFF_FFFF_FFFF
                * 0xFFFF_FFFFint) by (nonlinear_arith)
                requires
                    0 <= dst_frames as int <= 0xFFFF_FFFF_FFFF_FFFF,
                    0 <= src_rate as int <= 0xFFFF_FFFF,
            ;
        }
        let src_wide: u128 = ((dst_frames as u128) * (src_rate as u128) + (dst_rate as u128) / 2)
            / (dst_rate as u128);
        proof {
            assert(src_wide as int == produce_src_len(
                dst_frames as int,
                src_rate as int,
                dst_rate as int,
            ));
        }
        let src_len = src_wide as usize;

        if self.output_buf.len() < src_len {
            self.output_buf.resize(src_len, 0);
        }
        let scratch_len = self.output_buf.len();

        if self.playing_project {
            project.timeline.render(&project.clip_database, self.time, &mut self.output_buf);
            self.time = self.time + src_len;
            let timeline_len = project.timeline.len(&project.clip_database);
            if self.time > timeline_len && !self.recording {
                self.time = 0;
            }
        } else {
            let mut z: usize = 0;
            while z < self.output_buf.len()
                invariant
                    0 <= z <= self.output_buf@.len(),
                    self.output_buf@.len() == scratch_len,
                    forall|k: int| 0 <= k < z ==> self.output_buf@[k] == 0i32,
                    self.config == old(self).config,
                    self.playing_project == old(self).playing_project,
                    self.time == old(self).time,
                    self.recording == old(self).recording,
                    self.record_track == old(self).record_track,
                    self.record_start == old(self).record_start,
                    self.record_buf@ == old(self).record_buf@,
                decreases self.output_buf@.len() - z,
            {
                self.output_buf[z] = 0;
                z = z + 1;
            }
        }

        let mut i: usize = 0;
        while i < src_len
            invariant
                0 <= i <= src_len,
                src_len <= scratch_len,
                self.output_buf@.len() == scratch_len,
                project.generator == gen_after(g0, i as int),
                project.clip_database@ == db0,
                project.timeline@ == tl0,
                project.sample_rate == src_rate,
                self.playing_project == playing,
                self.recording == old(self).recording,
                self.record_track == old(self).record_track,
                self.record_start == old(self).record_start,
                self.config == old(self).config,
                self.time as int == produce_playhead(
                    time0,
                    src_len as int,
                    playing,
                    old(self).recording,
                    if playing {
                        timeline_len_spec(db0, tl0)
                    } else {
                        0
                    },
                ),
                rb0.len() + src_len <= usize::MAX,
                self.record_buf@ == if playing && old(self).recording {
                    rb0 + recorded_samples(g0, i as int)
                } else {
                    rb0
                },
                forall|k: int|
                    0 <= k < i ==> self.output_buf@[k] as int == produce_scratch_at(
                        db0,
                        tl0,
                        playing,
                        g0,
                        time0,
                        k,
                    ),
                forall|k: int|
                    i <= k < src_len ==> self.output_buf@[k] as int == produce_base_at(
                        db0,
                        tl0,
                        playing,
                        time0,
                        k,
                    ),
            decreases src_len - i,
        {
            let s = project.generator.next();
            proof {
                assert(gen_after(g0, i + 1) == sine_after_next(gen_after(g0, i as int)));
                assert(s as int == gen_sample(g0, i as int));
            }
            let mixed = crate::sample::clamp_sample(self.output_buf[i] as i64 + s as i64);
            self.output_buf[i] = mixed;
            if self.playing_project && self.recording {
                self.record_buf.push(s);
                proof {
                    assert(rb0 + recorded_samples(g0, i + 1) =~= (rb0 + recorded_samples(
                        g0,
                        i as int,
                    )).push(s));
                }
            }
            i = i + 1;
        }

        proof {
            if src_rate == dst_rate {
                let d = dst_rate as int;
                let x = dst_frames as int;
                assert(x * (src_rate as int) == d * x) by (nonlinear_arith)
                    requires
                        src_rate as int == d,
                ;
                lemma_div_multiples_vanish_fancy(x, d / 2, d);
                assert(src_len as int == (x * (src_rate as int) + d / 2) / d);
                assert((x * (src_rate as int) + d / 2) / d == (d * x + d / 2) / d);
                assert(src_len == dst_frames);
            }
        }
        if src_rate == dst_rate {
            let mut f: usize = 0;
            while f < dst_frames
                invariant
                    0 <= f <= dst_frames,
                    dst_frames as int * channels as int == len,
                    channels >= 1,
                    len == old(output)@.len(),
                    output@.len() == len,
                    src_rate == dst_rate,
                    dst_frames <= src_len <= scratch_len,
                    self.output_buf@.len() == scratch_len,
                    forall|k: int|
                        0 <= k < src_len ==> self.output_buf@[k] as int == produce_scratch_at(
                            db0,
                            tl0,
                            playing,
                            g0,
                            time0,
                            k,
                        ),
                    forall|j: int|
                        0 <= j < f as int * channels as int ==> output@[j] as int
                            == produce_scratch_at(db0, tl0, playing, g0, time0, j / channels as int),
                decreases dst_frames - f,
            {
                let value = self.output_buf[f];
                let mut c: usize = 0;
                while c < channels
                    invariant
                        0 <= c <= channels,
                        0 <= f < dst_frames,
                        dst_frames as int * channels as int == len,
                        len == old(output)@.len(),
                        output@.len() == len,
                        value as int == produce_scratch_at(db0, tl0, playing, g0, time0, f as int),
                        forall|j: int|
                            0 <= j < f as int * channels as int + c ==> output@[j] as int
                                == produce_scratch_at(
                                db0,
                                tl0,
                                playing,
                                g0,
                                time0,
                                j / channels as int,
                            ),
                    decreases channels - c,
                {
                    proof {
                        assert(f as int * channels as int + c < len && (f as int * channels as int
                            + c) / channels as int == f as int) by (nonlinear_arith)
                            requires
                                0 <= c < channels,
                                0 <= f < dst_frames,
                                dst_frames as int * channels as int == len,
                        ;
                    }
                    let idx = f * channels + c;
                    output[idx] = value;
                    c = c + 1;
                }
                proof {
                    assert((f as int + 1) * channels as int == f as int * channels as int
                        + channels as int) by (nonlinear_arith);
                }
                f = f + 1;
            }
        } else {
            let mut f: usize = 0;
            while f < dst_frames
                invariant
                    0 <= f <= dst_frames,
                    dst_frames as int * channels as int == len,
                    channels >= 1,
                    len == old(output)@.len(),
                    output@.len() == len,
                    src_rate != dst_rate,
                    dst_rate >= 1,
                    src_len <= scratch_len,
                    self.output_buf@.len() == scratch_len,
                    forall|k: int|
                        0 <= k < src_len ==> self.output_buf@[k] as int == produce_scratch_at(
                            db0,
                            tl0,
                            playing,
                            g0,
                            time0,
                            k,
                        ),
                    forall|j: int|
                        0 <= j < f as int * channels as int ==> output@[j] as int == resample_at(
                            scratch_seq(db0, tl0, playing, g0, time0, src_len as int),
                            j / channels as int,
                            src_rate as int,
                            dst_rate as int,
                        ),
                decreases dst_frames - f,
            {
                let value: i32 = resample_frame(
                    &self.output_buf,
                    src_len,
                    f,
                    src_rate,
                    dst_rate,
                );
                proof {
                    assert(samples_as_ints(self.output_buf@.take(src_len as int)) =~= scratch_seq(
                        db0,
                        tl0,
                        playing,
                        g0,
                        time0,
                        src_len as int,
                    ));
                }
                let mut c: usize = 0;
                while c < channels
                    invariant
                        0 <= c <= channels,
                        0 <= f < dst_frames,
                        dst_frames as int * channels as int == len,
                        len == old(output)@.len(),
                        output@.len() == len,
                        src_rate != dst_rate,
                        value as int == resample_at(
                            scratch_seq(db0, tl0, playing, g0, time0, src_len as int),
                            f as int,
                            src_rate as int,
                            dst_rate as int,
                        ),
                        forall|j: int|
                            0 <= j < f as int * channels as int + c ==> output@[j] as int
                                == resample_at(
                                scratch_seq(db0, tl0, playing, g0, time0, src_len as int),
                                j / channels as int,
                                src_rate as int,
                                dst_rate as int,
                            ),
                    decreases channels - c,
                {
                    proof {
                        assert(f as int * channels as int + c < len && (f as int * channels as int
                            + c) / channels as int == f as int) by (nonlinear_arith)
                            requires
                                0 <= c < channels,
                                0 <= f < dst_frames,
                                dst_frames as int * channels as int == len,
                        ;
                    }
                    let idx = f * channels + c;
                    output[idx] = value;
                    c = c + 1;
                }
                proof {
                    assert((f as int + 1) * channels as int == f as int * channels as int
                        + channels as int) by (nonlinear_arith);
                }
                f = f + 1;
            }
            proof {
                assert(forall|j: int|
                    0 <= j < len ==> 0 <= #[trigger] (j / channels as int) < dst_frames as int)
                    by (nonlinear_arith)
                    requires
                        channels >= 1,
                        dst_frames as int * channels as int == len,
                ;
            }
        }
    }
}

} // verus!
