//! A clip: an immutable single-channel PCM fragment.

use vstd::prelude::*;

verus! {

/// A single-channel PCM fragment. Sample values are fixed-point amplitudes
/// (`SAMPLE_UNIT` stands for full scale); clips produced by the WAV loader or
/// by recording stay within `[-SAMPLE_UNIT, SAMPLE_UNIT]`, but the
/// constructor accepts any data.
#[derive(Debug, Clone)]
pub struct Clip {
    pub data: Vec<i32>,
}

impl View for Clip {
    type V = Seq<i32>;

    open spec fn view(&self) -> Seq<i32> {
        self.data@
    }
}

/// Why a WAV fragment could not be turned into a clip.
#[derive(Debug, Clone, PartialEq, Eq, Structural)]
pub enum ClipError {
    /// The bytes do not parse as an integer-PCM WAV file.
    ClipReadError,
    /// The WAV file's sample rate differs from the project's.
    WrongSampleRate { sample_rate: u32 },
    /// Integer PCM of this bit depth is not supported.
    UnsupportedSampleFormat { bits_per_sample: u16 },
}

impl Clip {
    pub fn new(data: Vec<i32>) -> (r: Self)
        ensures
            r@ == data@,
    {
        Self { data }
    }

    pub fn len(&self) -> (r: usize)
        ensures
            r == self@.len(),
    {
        self.data.len()
    }
}

} // verus!
