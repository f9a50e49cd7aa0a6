//! The fixed-point sample amplitude scale and the clamp used when mixing.

use vstd::prelude::*;

verus! {

/// One sample amplitude unit: the fixed-point value standing for `1.0`.
pub const SAMPLE_UNIT: i32 = 1_000_000;

/// Clamp an amplitude to the nominal range `[-1.0, 1.0]`.
pub open spec fn clamp_spec(v: int) -> int {
    if v < -1_000_000 {
        -1_000_000
    } else if v > 1_000_000 {
        1_000_000
    } else {
        v
    }
}

/// Clamp a mixed amplitude back into the nominal sample range.
pub fn clamp_sample(v: i64) -> (r: i32)
    ensures
        r as int == clamp_spec(v as int),
{
    if v < -1_000_000 {
        -1_000_000
    } else if v > 1_000_000 {
        1_000_000
    } else {
        v as i32
    }
}

/// Clamp a wide accumulator back into the nominal sample range.
pub fn clamp_sample_wide(v: i128) -> (r: i32)
    ensures
        r as int == clamp_spec(v as int),
{
    if v < -1_000_000 {
        -1_000_000
    } else if v > 1_000_000 {
        1_000_000
    } else {
        v as i32
    }
}

} // verus!
