//! A monophonic sine oscillator, computed in integer fixed point.
//!
//! The phase is a fraction of one cycle in units of `2^-32` cycles. The
//! waveform is evaluated by quadrant symmetry and a truncated Taylor series
//! in Q30 fixed point; the result is exact integer arithmetic, stated by
//! `sine_micro_spec`.

use vstd::prelude::*;

use crate::generator::{Generator, NoteEvent};

verus! {

/// One quarter cycle of phase, and the Q30 fixed-point unit.
pub const QUARTER_Q30: u32 = 0x4000_0000;

/// `2^e` for small non-negative exponents.
pub open spec fn pow2i(e: int) -> int
    decreases e,
{
    if e <= 0 {
        1
    } else {
        2 * pow2i(e - 1)
    }
}

/// `2^(r/12)` in Q32 fixed point, for `r` in `0..12`: the equal-temperament
/// semitone ratios.
pub open spec fn semitone_q32(r: int) -> int {
    if r == 0 {
        0x1_0000_0000
    } else if r == 1 {
        4550359342
    } else if r == 2 {
        4820937788
    } else if r == 3 {
        5107605667
    } else if r == 4 {
        5411319705
    } else if r == 5 {
        5733093519
    } else if r == 6 {
        6074001000
    } else if r == 7 {
        6435179895
    } else if r == 8 {
        6817835604
    } else if r == 9 {
        7223245206
    } else if r == 10 {
        7652761717
    } else {
        8107818609
    }
}

/// The pitch of a MIDI key in Q32 cycles per second:
/// `440 * 2^((note - 69) / 12)` rounded to this fixed-point grid.
pub open spec fn pitch_q32(note: u8) -> int {
    let m = note + 75;
    (440 * semitone_q32(m % 12) * pow2i(m / 12)) / 4096
}

/// The per-sample phase increment in Q32 cycles, zero for a degenerate
/// sample rate.
pub open spec fn phase_inc_spec(note: u8, sample_rate: u32) -> int {
    if sample_rate == 0 {
        0
    } else {
        pitch_q32(note) / (sample_rate as int)
    }
}

/// `sin((pi / 2) * (u / 2^30))` in Q30 fixed point, for `u` in
/// `[0, 2^30]`: a truncated Taylor series, clamped to `[0, 2^30]`.
pub open spec fn sin_q30(u: int) -> int {
    let q = 0x4000_0000;
    let z = (u * 1686629713) / q;
    let z2 = (z * z) / q;
    let z3 = (z2 * z) / q;
    let z5 = (z3 * z2) / q;
    let z7 = (z5 * z2) / q;
    let z9 = (z7 * z2) / q;
    let s = z + z5 / 120 + z9 / 362880 - z3 / 6 - z7 / 5040;
    if s < 0 {
        0
    } else if s > q {
        q
    } else {
        s
    }
}

/// The oscillator's waveform: `sin(2 * pi * phase / 2^32)` as a fixed-point
/// amplitude in `[-1_000_000, 1_000_000]`, by quadrant symmetry.
pub open spec fn sine_micro_spec(phase: u32) -> int {
    let q = 0x4000_0000;
    let quarter = phase as int / q;
    let x = phase as int % q;
    let mag = if quarter == 0 || quarter == 2 {
        sin_q30(x)
    } else {
        sin_q30(q - x)
    };
    let micro = (mag * 1_000_000) / q;
    if quarter >= 2 {
        -micro
    } else {
        micro
    }
}

/// A monophonic sine oscillator: remembers the last key pressed, sounds
/// while a key is held, and advances its phase once per pulled sample.
#[derive(Debug, Clone, Copy, PartialEq, Eq, Structural)]
pub struct SineGenerator {
    pub sample_rate: u32,
    pub phase: u32,
    pub note: u8,
    pub on: bool,
}

/// The oscillator state after one note event: note-on retunes and starts the
/// note; note-off stops it only if it releases the sounding key; anything
/// else is ignored.
pub open spec fn sine_after_event(g: SineGenerator, msg: NoteEvent) -> SineGenerator {
    match msg {
        NoteEvent::NoteOn { key, .. } => SineGenerator { note: key, on: true, ..g },
        NoteEvent::NoteOff { key, .. } => if g.note == key {
            SineGenerator { on: false, ..g }
        } else {
            g
        },
        NoteEvent::ControlChange { .. } => g,
    }
}

/// The phase after one pulled sample: advanced by the increment of the
/// current note while a key is held, else unchanged.
pub open spec fn sine_next_phase(g: SineGenerator) -> u32 {
    if g.on {
        ((g.phase + phase_inc_spec(g.note, g.sample_rate)) % 0x1_0000_0000) as u32
    } else {
        g.phase
    }
}

/// The oscillator state after one pulled sample.
pub open spec fn sine_after_next(g: SineGenerator) -> SineGenerator {
    SineGenerator { phase: sine_next_phase(g), ..g }
}

/// The sample one pull returns: the waveform at the advanced phase, or
/// silence while no key is held.
pub open spec fn sine_output(g: SineGenerator) -> int {
    if g.on {
        sine_micro_spec(sine_next_phase(g))
    } else {
        0
    }
}

/// The per-sample phase increment for `note` at `sample_rate`.
fn phase_inc(note: u8, sample_rate: u32) -> (r: u64)
    ensures
        r as int == phase_inc_spec(note, sample_rate),
        r <= 0x200_0000_0000_0000,
{
    if sample_rate == 0 {
        return 0;
    }
    let m: u32 = note as u32 + 75;
    let q: u32 = m / 12;
    let r: u32 = m % 12;
    let sem: u64 = if r == 0 {
        0x1_0000_0000
    } else if r == 1 {
        4550359342
    } else if r == 2 {
        4820937788
    } else if r == 3 {
        5107605667
    } else if r == 4 {
        5411319705
    } else if r == 5 {
        5733093519
    } else if r == 6 {
        6074001000
    } else if r == 7 {
        6435179895
    } else if r == 8 {
        6817835604
    } else if r == 9 {
        7223245206
    } else if r == 10 {
        7652761717
    } else {
        8107818609
    };
    proof {
        assert(q <= 27);
    }
    let pw: u128 = pow2_u128(q);
    proof {
        assert(sem as int == semitone_q32(r as int));
        assert(440 * (sem as int) * (pw as int) <= 0x20_0000_0000_0000_0000) by (nonlinear_arith)
            requires
                0 <= sem <= 8107818609,
                0 <= pw <= 0x800_0000,
        ;
    }
    let base: u128 = 440u128 * (sem as u128) * pw;
    let pitch: u128 = base / 4096;
    let inc: u128 = pitch / (sample_rate as u128);
    proof {
        assert(inc <= pitch);
    }
    inc as u64
}

/// `2^e`, for exponents up to 27.
fn pow2_u128(e: u32) -> (r: u128)
    requires
        e <= 27,
    ensures
        r as int == pow2i(e as int),
        r <= 0x800_0000,
{
    let mut r: u128 = 1;
    let mut i: u32 = 0;
    while i < e
        invariant
            0 <= i <= e <= 27,
            r as int == pow2i(i as int),
            r <= 0x800_0000,
        decreases e - i,
    {
        proof {
            lemma_pow2i_bound(i + 1, 27);
            reveal_with_fuel(pow2i, 30);
        }
        r = r * 2;
        i = i + 1;
    }
    r
}

/// `2^e` grows with the exponent, and is at least one.
proof fn lemma_pow2i_bound(e: int, cap: int)
    requires
        e <= cap,
        cap >= 0,
    ensures
        pow2i(e) <= pow2i(cap),
        pow2i(e) >= 1,
    decreases cap,
{
    if cap > 0 {
        if e == cap {
            lemma_pow2i_bound(e - 1, cap - 1);
        } else {
            lemma_pow2i_bound(e, cap - 1);
        }
    }
}

/// The waveform at a phase, by quadrant symmetry and the Q30 series.
fn sine_micro(phase: u32) -> (r: i32)
    ensures
        r as int == sine_micro_spec(phase),
        -1_000_000 <= r <= 1_000_000,
{
    let q: u32 = QUARTER_Q30;
    let quarter: u32 = phase / q;
    let x: u32 = phase % q;
    let u: u32 = if quarter == 0 || quarter == 2 {
        x
    } else {
        q - x
    };
    let mag: u64 = sin_q30_exec(u);
    let micro: u64 = (mag * 1_000_000) / (q as u64);
    proof {
        assert(mag * 1_000_000 <= 0x4000_0000 * 1_000_000) by (nonlinear_arith)
            requires
                0 <= mag <= 0x4000_0000,
        ;
        assert(micro <= 1_000_000);
    }
    if quarter >= 2 {
        -(micro as i32)
    } else {
        micro as i32
    }
}

/// The truncated Taylor series in Q30, clamped to `[0, 2^30]`.
fn sin_q30_exec(u: u32) -> (r: u64)
    requires
        u <= 0x4000_0000,
    ensures
        r as int == sin_q30(u as int),
        r <= 0x4000_0000,
{
    let q: u128 = 0x4000_0000;
    let uu: u128 = u as u128;
    let z: u128 = (uu * 1686629713) / q;
    proof {
        assert((z as int) * (z as int) <= 0x4000_0000_0000_0000 && z <= 0x8000_0000)
            by (nonlinear_arith)
            requires
                z <= (0x4000_0000int * 1686629713) / 0x4000_0000,
        ;
    }
    let z2: u128 = (z * z) / q;
    proof {
        assert((z2 as int) * (z as int) <= 0x8000_0000_0000_0000 && z2 <= 0x1_0000_0000)
            by (nonlinear_arith)
            requires
                z <= 0x8000_0000,
                z2 <= 0x4000_0000_0000_0000int / 0x4000_0000,
        ;
    }
    let z3: u128 = (z2 * z) / q;
    proof {
        assert((z3 as int) * (z2 as int) <= 0x2_0000_0000_0000_0000 && z3 <= 0x2_0000_0000)
            by (nonlinear_arith)
            requires
                z2 <= 0x1_0000_0000,
                z3 <= 0x8000_0000_0000_0000int / 0x4000_0000,
        ;
    }
    let z5: u128 = (z3 * z2) / q;
    proof {
        assert((z5 as int) * (z2 as int) <= 0x8_0000_0000_0000_0000 && z5 <= 0x8_0000_0000)
            by (nonlinear_arith)
            requires
                z2 <= 0x1_0000_0000,
                z5 <= 0x2_0000_0000_0000_0000int / 0x4000_0000,
        ;
    }
    let z7: u128 = (z5 * z2) / q;
    proof {
        assert((z7 as int) * (z2 as int) <= 0x20_0000_0000_0000_0000 && z7 <= 0x20_0000_0000)
            by (nonlinear_arith)
            requires
                z2 <= 0x1_0000_0000,
                z7 <= 0x8_0000_0000_0000_0000int / 0x4000_0000,
        ;
    }
    let z9: u128 = (z7 * z2) / q;
    let pos: u128 = z + z5 / 120 + z9 / 362880;
    let neg: u128 = z3 / 6 + z7 / 5040;
    let s: u128 = if neg > pos {
        0
    } else {
        let d = pos - neg;
        if d > q {
            q
        } else {
            d
        }
    };
    proof {
        let si = z as int + z5 as int / 120 + z9 as int / 362880 - z3 as int / 6 - z7 as int
            / 5040;
        if neg > pos {
            assert(si < 0);
        } else {
            assert(si == pos - neg);
        }
    }
    s as u64
}

impl SineGenerator {
    pub fn new(sample_rate: u32) -> (r: Self)
        ensures
            r == (SineGenerator { sample_rate, phase: 0, note: 69, on: false }),
    {
        SineGenerator { sample_rate, phase: 0, note: 69, on: false }
    }
}

impl Default for SineGenerator {
    /// The default oscillator runs at the default project sample rate.
    fn default() -> (r: Self)
        ensures
            r == (SineGenerator { sample_rate: 44100, phase: 0, note: 69, on: false }),
    {
        SineGenerator::new(44100)
    }
}

impl Generator for SineGenerator {
    /// Pull one sample: silence while no key is held; otherwise advance the
    /// phase by the current note's increment and evaluate the waveform.
    fn next(&mut self) -> (r: i32)
        ensures
            *final(self) == sine_after_next(*old(self)),
            r as int == sine_output(*old(self)),
    {
        if !self.on {
            return 0;
        }
        let inc = phase_inc(self.note, self.sample_rate);
        let p = ((self.phase as u64 + inc) % 0x1_0000_0000) as u32;
        self.phase = p;
        sine_micro(p)
    }

    /// Apply a note event to the held-key state.
    fn handle(&mut self, msg: NoteEvent)
        ensures
            *final(self) == sine_after_event(*old(self), msg),
    {
        match msg {
            NoteEvent::NoteOn { key, .. } => {
                self.note = key;
                self.on = true;
            },
            NoteEvent::NoteOff { key, .. } => {
                if self.note == key {
                    self.on = false;
                }
            },
            NoteEvent::ControlChange { .. } => {},
        }
    }
}

} // verus!
