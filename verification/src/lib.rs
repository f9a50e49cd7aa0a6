//! A small digital audio workstation engine: clips of single-channel audio
//! are placed on tracks, tracks are mixed into a timeline, a player renders
//! the timeline through a live instrument into a host audio buffer, and the
//! whole project can be persisted as text and exported as a WAV file.
//!
//! Samples are fixed-point amplitudes: the value `1_000_000` stands for full
//! scale `1.0`, `-1_000_000` for `-1.0`.

use vstd::prelude::*;

mod clip;
mod clip_database;
mod sample;
pub mod generator;
pub mod player;
pub mod project;
pub mod sine;
pub mod timeline;
pub mod track;
pub mod view;
pub mod json;
pub mod laws;
pub mod wav;

pub use clip::Clip;
pub use generator::Generator;
pub use generator::NoteEvent;
pub use sine::SineGenerator;
pub use project::Project;
pub use project::ProjectError;
pub use player::Player;
pub use player::PlayerError;
pub use player::StreamConfig;
pub use player::BufferSize;
pub use view::track_update;
pub use view::timeline_update;
pub use view::TrackMessage;
pub use view::TimelineMessage;
pub use clip::ClipError;
pub use clip_database::ClipDatabase;
pub use clip_database::ClipId;
pub use sample::clamp_sample;
pub use timeline::Timeline;
pub use track::Track;
pub use sample::clamp_spec;
pub use sample::SAMPLE_UNIT;

verus! {

/// A position or duration on the timeline, counted in samples at the
/// project's native sample rate.
pub type Time = usize;

/// The sum of the sources' samples at position `i`, sources shorter than
/// `i + 1` contributing silence.
pub open spec fn mix_sum(sources: Seq<Seq<i32>>, i: int) -> int
    decreases sources.len(),
{
    if sources.len() == 0 {
        0
    } else {
        mix_sum(sources.drop_last(), i) + if 0 <= i < sources.last().len() {
            sources.last()[i] as int
        } else {
            0
        }
    }
}

/// What mixing puts at position `i`: the sum of all sources there, clamped
/// once to the nominal range.
pub open spec fn mix_sample(sources: Seq<Seq<i32>>, i: int) -> int {
    clamp_spec(mix_sum(sources, i))
}

/// Mix the source buffers into `buf` by summation and a final clamp; each
/// source contributes silence past its own end.
pub fn mix(sources: &Vec<Vec<i32>>, buf: &mut Vec<i32>)
    ensures
        final(buf)@.len() == old(buf)@.len(),
        forall|i: int|
            0 <= i < old(buf)@.len() ==> final(buf)@[i] as int == mix_sample(
                sources.deep_view(),
                i,
            ),
{
    let n = buf.len();
    let mut i: usize = 0;
    while i < n
        invariant
            0 <= i <= n,
            buf@.len() == n,
            forall|k: int|
                0 <= k < i ==> buf@[k] as int == mix_sample(sources.deep_view(), k),
        decreases n - i,
    {
        let mut acc: i128 = 0;
        let mut j: usize = 0;
        while j < sources.len()
            invariant
                0 <= j <= sources.len(),
                sources.deep_view().len() == sources@.len(),
                forall|k: int|
                    0 <= k < sources@.len() ==> sources.deep_view()[k] == sources@[k]@,
                acc == mix_sum(sources.deep_view().take(j as int), i as int),
                -(j as int) * 0x8000_0000 <= acc <= (j as int) * 0x8000_0000,
            decreases sources.len() - j,
        {
            let ghost pre = sources.deep_view().take(j as int);
            let src = &sources[j];
            if i < src.len() {
                acc = acc + src[i] as i128;
            }
            proof {
                assert(sources.deep_view().take(j + 1).drop_last() =~= pre);
                assert(sources.deep_view().take(j + 1).last() == sources@[j as int]@);
            }
            j = j + 1;
        }
        proof {
            assert(sources.deep_view().take(sources@.len() as int) =~= sources.deep_view());
        }
        buf[i] = crate::sample::clamp_sample_wide(acc);
        i = i + 1;
    }
}

} // verus!
