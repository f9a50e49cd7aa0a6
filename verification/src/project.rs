//! The project: persistent state (sample rate, timeline, clip store) plus
//! the live instrument.

use vstd::prelude::*;

use crate::clip::{Clip, ClipError};
use crate::clip_database::{ClipDatabase, ClipId};
use crate::sine::SineGenerator;
use crate::timeline::{timeline_len_spec, timeline_sample, Timeline};
use crate::track::ClipInstance;

verus! {

/// Why a project could not be saved or loaded.
#[derive(Debug, Clone, PartialEq, Eq, Structural)]
pub enum ProjectError {
    /// An underlying file or device failure, as reported by the caller's
    /// input source.
    IoError,
    /// The stored text does not parse as a project; the position is where
    /// reading stopped.
    LoadProjectError { line: usize, column: usize },
    /// The project is too large for the export container format.
    SaveProjectError,
}

/// Owns persistent project data: what is saved, loaded and exported. The
/// instrument is not persistent; it is rebuilt on load.
#[derive(Debug)]
pub struct Project {
    pub sample_rate: u32,
    pub timeline: Timeline,
    pub clip_database: ClipDatabase,
    pub generator: SineGenerator,
}

impl Project {
    /// An empty project at the default sample rate.
    pub fn new() -> (r: Project)
        ensures
            r.sample_rate == 44100,
            r.timeline@.len() == 4,
            forall|k: int| 0 <= k < 4 ==> r.timeline@[k] == Seq::<ClipInstance>::empty(),
            r.clip_database@ == Seq::<Seq<i32>>::empty(),
            r.generator == (SineGenerator { sample_rate: 44100, phase: 0, note: 69, on: false }),
    {
        Project {
            sample_rate: 44100,
            timeline: Timeline::new(),
            clip_database: ClipDatabase::new(),
            generator: SineGenerator::new(44100),
        }
    }

    /// Place an already-stored clip on a track at `time`.
    pub fn place_clip(&mut self, track: usize, time: crate::Time, clip_id: ClipId) -> (r:
        ClipInstance)
        requires
            track < old(self).timeline@.len(),
        ensures
            r == (ClipInstance { time, clip_id }),
            final(self).timeline@ == old(self).timeline@.update(
                track as int,
                old(self).timeline@[track as int].push(ClipInstance { time, clip_id }),
            ),
            final(self).sample_rate == old(self).sample_rate,
            final(self).clip_database@ == old(self).clip_database@,
            final(self).generator == old(self).generator,
    {
        let r = self.timeline.tracks[track].instantiate_clip(clip_id, time);
        proof {
            assert(self.timeline@ =~= old(self).timeline@.update(
                track as int,
                old(self).timeline@[track as int].push(ClipInstance { time, clip_id }),
            ));
        }
        r
    }

    /// Render the whole timeline and encode it as a mono 16-bit PCM WAV
    /// file at the project sample rate; a project too large for the
    /// container's 32-bit sizes is rejected.
    pub fn export_wav(&self) -> (r: Result<Vec<u8>, ProjectError>)
        requires
            self.timeline@.len() > 0,
            timeline_len_spec(self.clip_database@, self.timeline@) <= usize::MAX,
        ensures
            ({
                let n = timeline_len_spec(self.clip_database@, self.timeline@);
                let rendered = Seq::new(
                    n as nat,
                    |i: int| timeline_sample(
                        self.clip_database@,
                        self.timeline@,
                        Seq::<usize>::empty(),
                        0,
                        i,
                    ),
                );
                if 2 * n + 36 <= u32::MAX && 2 * self.sample_rate <= u32::MAX {
                    r matches Ok(bytes) && bytes@ == crate::wav::wav_bytes(
                        self.sample_rate as int,
                        rendered,
                    )
                } else {
                    r == Err::<Vec<u8>, ProjectError>(ProjectError::SaveProjectError)
                }
            }),
    {
        let samples = self.timeline.render_all(&self.clip_database);
        if !(samples.len() <= (0xFFFF_FFFFusize - 36) / 2 && self.sample_rate <= 0xFFFF_FFFFu32
            / 2) {
            return Err(ProjectError::SaveProjectError);
        }
        let bytes = crate::wav::encode_wav(self.sample_rate, &samples);
        proof {
            assert(crate::wav::samples_as_micro(samples@) =~= Seq::new(
                timeline_len_spec(self.clip_database@, self.timeline@) as nat,
                |i: int| timeline_sample(
                    self.clip_database@,
                    self.timeline@,
                    Seq::<usize>::empty(),
                    0,
                    i,
                ),
            ));
        }
        Ok(bytes)
    }

    /// Decode a WAV fragment at the project's sample rate and store it as a
    /// new clip.
    pub fn load_wav_clip(&mut self, data: &Vec<u8>) -> (r: Result<ClipId, ClipError>)
        ensures
            final(self).sample_rate == old(self).sample_rate,
            final(self).timeline@ == old(self).timeline@,
            final(self).generator == old(self).generator,
            match r {
                Ok(id) => crate::wav::wav_decode(data@, old(self).sample_rate as int) matches Ok(
                    samples,
                ) && id@ == old(self).clip_database@.len() && final(self).clip_database@ == old(
                    self,
                ).clip_database@.push(samples),
                Err(e) => crate::wav::wav_decode(data@, old(self).sample_rate as int) == Err::<
                    Seq<i32>,
                    ClipError,
                >(e) && final(self).clip_database@ == old(self).clip_database@,
            },
    {
        let clip = match Clip::load_wav(self.sample_rate, data) {
            Ok(clip) => clip,
            Err(e) => {
                return Err(e);
            },
        };
        Ok(self.clip_database.add(clip))
    }

    /// A duration in microseconds, as the nearest count of samples at the
    /// project rate.
    pub fn sec_to_samples(&self, micros: u64) -> (r: crate::Time)
        requires
            crate::wav::round_div(micros as int * self.sample_rate as int, 1_000_000)
                <= usize::MAX,
        ensures
            r as int == crate::wav::round_div(micros as int * self.sample_rate as int, 1_000_000),
    {
        let wide: u128 = (micros as u128 * self.sample_rate as u128 + 500_000) / 1_000_000;
        wide as usize
    }

    /// A sample count, as the nearest duration in microseconds at the
    /// project rate.
    pub fn samples_to_sec(&self, samples: crate::Time) -> (r: u64)
        requires
            self.sample_rate >= 1,
            crate::wav::round_div(samples as int * 1_000_000, self.sample_rate as int)
                <= u64::MAX,
        ensures
            r as int == crate::wav::round_div(
                samples as int * 1_000_000,
                self.sample_rate as int,
            ),
    {
        let wide: u128 = (samples as u128 * 1_000_000 + (self.sample_rate as u128) / 2) / (
        self.sample_rate as u128);
        wide as u64
    }

    /// Store a clip and return its identifier.
    pub fn add_clip(&mut self, clip: Clip) -> (id: ClipId)
        ensures
            id@ == old(self).clip_database@.len(),
            final(self).clip_database@ == old(self).clip_database@.push(clip@),
            final(self).sample_rate == old(self).sample_rate,
            final(self).timeline@ == old(self).timeline@,
            final(self).generator == old(self).generator,
    {
        self.clip_database.add(clip)
    }
}

} // verus!
