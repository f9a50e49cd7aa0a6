//! The WAV container: encoding mono 16-bit PCM, and decoding integer PCM.
//!
//! Encoding writes the canonical 44-byte header followed by the quantized
//! samples. Decoding scans the RIFF chunk list for `fmt ` and `data`,
//! accepts integer PCM of 8, 16, 24 or 32 bits at the expected sample rate,
//! keeps channel 0 of each frame, and normalizes by the bit depth.

use vstd::prelude::*;

use crate::clip::{Clip, ClipError};
use vstd::arithmetic::div_mod::{lemma_div_is_ordered, lemma_fundamental_div_mod};

verus! {

/// Division rounded to nearest, halves away from zero.
pub open spec fn round_div(x: int, d: int) -> int {
    if x >= 0 {
        (x + d / 2) / d
    } else {
        -((-x + d / 2) / d)
    }
}

/// A sample amplitude quantized for 16-bit export:
/// `round(clamp(s, -1, 1) * 32767)`.
pub open spec fn quant16(m: int) -> int {
    round_div(crate::sample::clamp_spec(m) * 32767, 1_000_000)
}

/// The two little-endian bytes of a 16-bit value (two's complement for
/// negatives).
pub open spec fn le16(v: int) -> Seq<u8> {
    let u = if v < 0 {
        v + 0x1_0000
    } else {
        v
    };
    seq![(u % 256) as u8, ((u / 256) % 256) as u8]
}

/// The four little-endian bytes of a 32-bit unsigned value.
pub open spec fn le32(v: int) -> Seq<u8> {
    seq![
        (v % 256) as u8,
        ((v / 256) % 256) as u8,
        ((v / 0x1_0000) % 256) as u8,
        ((v / 0x100_0000) % 256) as u8,
    ]
}

/// The quantized little-endian sample data of the first `j` samples.
pub open spec fn wav_data_bytes(samples: Seq<int>, j: int) -> Seq<u8>
    decreases j,
{
    if j <= 0 {
        Seq::empty()
    } else {
        wav_data_bytes(samples, j - 1) + le16(quant16(samples[j - 1]))
    }
}

/// A whole mono 16-bit PCM WAV file for the given samples.
pub open spec fn wav_bytes(sample_rate: int, samples: Seq<int>) -> Seq<u8> {
    let n = samples.len() as int;
    seq![0x52u8, 0x49u8, 0x46u8, 0x46u8] + le32(36 + 2 * n) + seq![0x57u8, 0x41u8, 0x56u8, 0x45u8]
        + seq![0x66u8, 0x6Du8, 0x74u8, 0x20u8] + le32(16) + le16(1) + le16(1) + le32(sample_rate)
        + le32(2 * sample_rate) + le16(2) + le16(16) + seq![0x64u8, 0x61u8, 0x74u8, 0x61u8] + le32(
        2 * n,
    ) + wav_data_bytes(samples, n)
}

/// A 16-bit little-endian read.
pub open spec fn read_u16(b: Seq<u8>, off: int) -> int {
    b[off] + 256 * b[off + 1]
}

/// A 32-bit little-endian read.
pub open spec fn read_u32(b: Seq<u8>, off: int) -> int {
    b[off] + 256 * b[off + 1] + 0x1_0000 * b[off + 2] + 0x100_0000 * b[off + 3]
}

/// Whether a four-byte chunk identifier stands at `off`.
pub open spec fn has_id(b: Seq<u8>, off: int, c0: u8, c1: u8, c2: u8, c3: u8) -> bool {
    b[off] == c0 && b[off + 1] == c1 && b[off + 2] == c2 && b[off + 3] == c3
}

/// Scan the chunk list from `off` for an identifier: the offset and size of
/// its contents. Chunks are padded to even sizes; a truncated list ends the
/// scan.
pub open spec fn find_chunk(b: Seq<u8>, off: int, c0: u8, c1: u8, c2: u8, c3: u8) -> Option<
    (int, int),
>
    decreases b.len() - off,
{
    if off < 0 || off + 8 > b.len() {
        None
    } else {
        let sz = read_u32(b, off + 4);
        if has_id(b, off, c0, c1, c2, c3) {
            Some((off + 8, sz))
        } else {
            let next = off + 8 + sz + sz % 2;
            if next > b.len() {
                None
            } else {
                find_chunk(b, off + 8 + sz + sz % 2, c0, c1, c2, c3)
            }
        }
    }
}

/// The normalizing divisor for a bit depth: `2^(bits - 1) - 1`.
pub open spec fn pcm_divisor(bits: int) -> int {
    if bits == 8 {
        127
    } else if bits == 16 {
        32767
    } else if bits == 24 {
        8388607
    } else {
        2147483647
    }
}

/// A signed little-endian PCM sample of 1 to 4 bytes. Eight-bit samples
/// are stored excess-128 (an unsigned byte centered on 128); the wider
/// widths are two's complement.
pub open spec fn read_pcm(b: Seq<u8>, off: int, bytes_per: int) -> int {
    if bytes_per == 1 {
        b[off] - 128
    } else if bytes_per == 2 {
        let u = read_u16(b, off);
        if u >= 0x8000 {
            u - 0x1_0000
        } else {
            u
        }
    } else if bytes_per == 3 {
        let u = b[off] + 256 * b[off + 1] + 0x1_0000 * b[off + 2];
        if u >= 0x80_0000 {
            u - 0x100_0000
        } else {
            u
        }
    } else {
        let u = read_u32(b, off);
        if u >= 0x8000_0000 {
            u - 0x1_0000_0000
        } else {
            u
        }
    }
}

/// A PCM sample normalized to the fixed-point amplitude scale.
pub open spec fn norm_sample(v: int, bits: int) -> int {
    round_div(v * 1_000_000, pcm_divisor(bits))
}

/// The decoded sample sequence of a PCM data block.
pub open spec fn wav_samples(
    b: Seq<u8>,
    data_off: int,
    channels: int,
    bytes_per: int,
    bits: int,
    count: int,
) -> Seq<i32> {
    Seq::new(
        count as nat,
        |k: int| norm_sample(read_pcm(b, data_off + k * channels * bytes_per, bytes_per), bits) as i32,
    )
}

/// What decoding a WAV file yields: the normalized channel-0 samples, or
/// the reason the file is rejected. Structural faults are `ClipReadError`;
/// non-integer PCM and unsupported bit depths are `UnsupportedSampleFormat`;
/// a rate other than `expected_rate` is `WrongSampleRate`.
pub open spec fn wav_decode(b: Seq<u8>, expected_rate: int) -> Result<Seq<i32>, ClipError> {
    if b.len() < 12 || !has_id(b, 0, 0x52, 0x49, 0x46, 0x46) || !has_id(
        b,
        8,
        0x57,
        0x41,
        0x56,
        0x45,
    ) {
        Err(ClipError::ClipReadError)
    } else {
        match find_chunk(b, 12, 0x66, 0x6D, 0x74, 0x20) {
            None => Err(ClipError::ClipReadError),
            Some((fmt_off, fmt_sz)) => {
                if fmt_sz < 16 || fmt_off + 16 > b.len() {
                    Err(ClipError::ClipReadError)
                } else {
                    let format = read_u16(b, fmt_off);
                    let channels = read_u16(b, fmt_off + 2);
                    let rate = read_u32(b, fmt_off + 4);
                    let bits = read_u16(b, fmt_off + 14);
                    match find_chunk(b, 12, 0x64, 0x61, 0x74, 0x61) {
                        None => Err(ClipError::ClipReadError),
                        Some((data_off, data_sz)) => {
                            if data_off + data_sz > b.len() {
                                Err(ClipError::ClipReadError)
                            } else if format != 1 {
                                Err(ClipError::UnsupportedSampleFormat { bits_per_sample: bits as u16 })
                            } else if bits != 8 && bits != 16 && bits != 24 && bits != 32 {
                                Err(ClipError::UnsupportedSampleFormat { bits_per_sample: bits as u16 })
                            } else if channels == 0 {
                                Err(ClipError::ClipReadError)
                            } else if rate != expected_rate {
                                Err(ClipError::WrongSampleRate { sample_rate: rate as u32 })
                            } else {
                                let bytes_per = bits / 8;
                                let total = data_sz / bytes_per;
                                let count = (total + channels - 1) / channels;
                                Ok(wav_samples(b, data_off, channels, bytes_per, bits, count))
                            }
                        },
                    }
                }
            },
        }
    }
}

/// Division rounded to nearest, halves away from zero, on machine integers.
fn round_div_exec(x: i64, d: i64) -> (r: i64)
    requires
        1 <= d <= 0x1_0000_0000,
        -0x10_0000_0000_0000 <= x <= 0x10_0000_0000_0000,
    ensures
        r as int == round_div(x as int, d as int),
{
    if x >= 0 {
        (x + d / 2) / d
    } else {
        -((-x + d / 2) / d)
    }
}

/// A sample quantized for 16-bit export.
pub fn quant16_exec(m: i32) -> (r: i16)
    ensures
        r as int == quant16(m as int),
        -32767 <= r <= 32767,
{
    let c = crate::sample::clamp_sample(m as i64);
    let q = round_div_exec(c as i64 * 32767, 1_000_000);
    proof {
        lemma_div_is_ordered(
            c as int * 32767 + 500_000,
            1_000_000int * 32767 + 500_000,
            1_000_000,
        );
        lemma_div_is_ordered(
            -(c as int) * 32767 + 500_000,
            1_000_000int * 32767 + 500_000,
            1_000_000,
        );
        assert((1_000_000int * 32767 + 500_000) / 1_000_000 == 32767);
    }
    q as i16
}

/// Append a 16-bit little-endian value.
fn push_le16(out: &mut Vec<u8>, v: i16)
    ensures
        final(out)@ == old(out)@ + le16(v as int),
{
    let u: u32 = if v < 0 {
        (v as i32 + 0x1_0000) as u32
    } else {
        v as u32
    };
    out.push((u % 256) as u8);
    out.push(((u / 256) % 256) as u8);
    proof {
        assert(out@ =~= old(out)@ + le16(v as int));
    }
}

/// Append a 32-bit little-endian value.
fn push_le32(out: &mut Vec<u8>, v: u32)
    ensures
        final(out)@ == old(out)@ + le32(v as int),
{
    out.push((v % 256) as u8);
    out.push(((v / 256) % 256) as u8);
    out.push(((v / 0x1_0000) % 256) as u8);
    out.push(((v / 0x100_0000) % 256) as u8);
    proof {
        assert(out@ =~= old(out)@ + le32(v as int));
    }
}

/// Encode samples as a mono 16-bit PCM WAV file.
pub fn encode_wav(sample_rate: u32, samples: &Vec<i32>) -> (r: Vec<u8>)
    requires
        2 * samples@.len() + 36 <= u32::MAX,
        2 * sample_rate <= u32::MAX,
    ensures
        r@ == wav_bytes(sample_rate as int, samples_as_micro(samples@)),
{
    let n = samples.len();
    let ghost data = samples_as_micro(samples@);
    let mut out: Vec<u8> = Vec::new();
    out.push(0x52);
    out.push(0x49);
    out.push(0x46);
    out.push(0x46);
    push_le32(&mut out, 36 + 2 * (n as u32));
    out.push(0x57);
    out.push(0x41);
    out.push(0x56);
    out.push(0x45);
    out.push(0x66);
    out.push(0x6D);
    out.push(0x74);
    out.push(0x20);
    push_le32(&mut out, 16);
    push_le16(&mut out, 1);
    push_le16(&mut out, 1);
    push_le32(&mut out, sample_rate);
    push_le32(&mut out, 2 * sample_rate);
    push_le16(&mut out, 2);
    push_le16(&mut out, 16);
    out.push(0x64);
    out.push(0x61);
    out.push(0x74);
    out.push(0x61);
    push_le32(&mut out, 2 * (n as u32));
    let ghost header = out@;
    proof {
        assert(header =~= wav_bytes(sample_rate as int, data).take(44));
        assert(wav_bytes(sample_rate as int, data) =~= header + wav_data_bytes(data, n as int));
    }
    let mut i: usize = 0;
    while i < n
        invariant
            0 <= i <= n,
            n == samples@.len(),
            data == samples_as_micro(samples@),
            out@ == header + wav_data_bytes(data, i as int),
        decreases n - i,
    {
        let q = quant16_exec(samples[i]);
        push_le16(&mut out, q);
        proof {
            assert(out@ =~= header + wav_data_bytes(data, i + 1));
        }
        i = i + 1;
    }
    proof {
        assert(out@ =~= wav_bytes(sample_rate as int, data));
    }
    out
}

/// A sample buffer read as mathematical amplitudes.
pub open spec fn samples_as_micro(s: Seq<i32>) -> Seq<int> {
    s.map_values(|x: i32| x as int)
}

/// A 16-bit little-endian read.
fn read_u16_exec(b: &Vec<u8>, off: usize) -> (r: u16)
    requires
        off + 2 <= b@.len(),
    ensures
        r as int == read_u16(b@, off as int),
{
    proof {
        assert(b@.len() == b.len());
    }
    b[off] as u16 + 256 * (b[off + 1] as u16)
}

/// A 32-bit little-endian read.
fn read_u32_exec(b: &Vec<u8>, off: usize) -> (r: u32)
    requires
        off + 4 <= b@.len(),
    ensures
        r as int == read_u32(b@, off as int),
{
    proof {
        assert(b@.len() == b.len());
    }
    b[off] as u32 + 256 * (b[off + 1] as u32) + 0x1_0000 * (b[off + 2] as u32) + 0x100_0000 * (b[off
        + 3] as u32)
}

/// Scan the chunk list for an identifier.
fn find_chunk_exec(b: &Vec<u8>, start: usize, c0: u8, c1: u8, c2: u8, c3: u8) -> (r: Option<
    (usize, usize),
>)
    ensures
        match r {
            Some((off, sz)) => find_chunk(b@, start as int, c0, c1, c2, c3) == Some(
                (off as int, sz as int),
            ) && off + 8 <= b@.len() + 8,
            None => find_chunk(b@, start as int, c0, c1, c2, c3) is None,
        },
{
    let mut off = start;
    loop
        invariant
            start <= off,
            find_chunk(b@, start as int, c0, c1, c2, c3) == find_chunk(
                b@,
                off as int,
                c0,
                c1,
                c2,
                c3,
            ),
        decreases b@.len() - off,
    {
        if b.len() < 8 || off > b.len() - 8 {
            return None;
        }
        let sz32 = read_u32_exec(b, off + 4);
        let sz = sz32 as usize;
        if b[off] == c0 && b[off + 1] == c1 && b[off + 2] == c2 && b[off + 3] == c3 {
            return Some((off + 8, sz));
        }
        let avail = b.len() - off - 8;
        if sz > avail {
            return None;
        }
        let padded = if sz % 2 == 1 {
            sz + 1
        } else {
            sz
        };
        if padded > avail {
            return None;
        }
        off = off + 8 + padded;
    }
}

/// A signed little-endian PCM sample of 1 to 4 bytes.
fn read_pcm_exec(b: &Vec<u8>, off: usize, bytes_per: usize) -> (r: i64)
    requires
        bytes_per == 1 || bytes_per == 2 || bytes_per == 3 || bytes_per == 4,
        off + bytes_per <= b@.len(),
    ensures
        r as int == read_pcm(b@, off as int, bytes_per as int),
        bytes_per == 1 ==> -0x80 <= r < 0x80,
        bytes_per == 2 ==> -0x8000 <= r < 0x8000,
        bytes_per == 3 ==> -0x80_0000 <= r < 0x80_0000,
        bytes_per == 4 ==> -0x8000_0000 <= r < 0x8000_0000,
{
    proof {
        assert(b@.len() == b.len());
    }
    if bytes_per == 1 {
        b[off] as i64 - 128
    } else if bytes_per == 2 {
        let u = read_u16_exec(b, off) as i64;
        if u >= 0x8000 {
            u - 0x1_0000
        } else {
            u
        }
    } else if bytes_per == 3 {
        let u = b[off] as i64 + 256 * (b[off + 1] as i64) + 0x1_0000 * (b[off + 2] as i64);
        if u >= 0x80_0000 {
            u - 0x100_0000
        } else {
            u
        }
    } else {
        let u = read_u32_exec(b, off) as i64;
        if u >= 0x8000_0000 {
            u - 0x1_0000_0000
        } else {
            u
        }
    }
}

impl Clip {
    /// Decode an integer-PCM WAV fragment (8, 16, 24 or 32 bits) recorded
    /// at `sample_rate` into a clip: channel 0 only, normalized by the bit
    /// depth.
    pub fn load_wav(sample_rate: u32, data: &Vec<u8>) -> (r: Result<Clip, ClipError>)
        ensures
            match r {
                Ok(clip) => wav_decode(data@, sample_rate as int) == Ok::<Seq<i32>, ClipError>(
                    clip@,
                ),
                Err(e) => wav_decode(data@, sample_rate as int) == Err::<Seq<i32>, ClipError>(e),
            },
    {
        if data.len() < 12 {
            return Err(ClipError::ClipReadError);
        }
        if !(data[0] == 0x52 && data[1] == 0x49 && data[2] == 0x46 && data[3] == 0x46) {
            return Err(ClipError::ClipReadError);
        }
        if !(data[8] == 0x57 && data[9] == 0x41 && data[10] == 0x56 && data[11] == 0x45) {
            return Err(ClipError::ClipReadError);
        }
        let fmt = match find_chunk_exec(data, 12, 0x66, 0x6D, 0x74, 0x20) {
            None => {
                return Err(ClipError::ClipReadError);
            },
            Some(f) => f,
        };
        let (fmt_off, fmt_sz) = fmt;
        if fmt_sz < 16 || fmt_off > data.len() || data.len() - fmt_off < 16 {
            return Err(ClipError::ClipReadError);
        }
        let format = read_u16_exec(data, fmt_off);
        let channels = read_u16_exec(data, fmt_off + 2);
        let rate = read_u32_exec(data, fmt_off + 4);
        let bits = read_u16_exec(data, fmt_off + 14);
        let dat = match find_chunk_exec(data, 12, 0x64, 0x61, 0x74, 0x61) {
            None => {
                return Err(ClipError::ClipReadError);
            },
            Some(d) => d,
        };
        let (data_off, data_sz) = dat;
        if data_off > data.len() || data.len() - data_off < data_sz {
            return Err(ClipError::ClipReadError);
        }
        if format != 1 {
            return Err(ClipError::UnsupportedSampleFormat { bits_per_sample: bits });
        }
        if bits != 8 && bits != 16 && bits != 24 && bits != 32 {
            return Err(ClipError::UnsupportedSampleFormat { bits_per_sample: bits });
        }
        if channels == 0 {
            return Err(ClipError::ClipReadError);
        }
        if rate != sample_rate {
            return Err(ClipError::WrongSampleRate { sample_rate: rate });
        }
        let bytes_per = (bits / 8) as usize;
        let total = data_sz / bytes_per;
        let chans = channels as usize;
        proof {
            lemma_ceil_div(total as int, chans as int);
            if total % chans != 0 {
                assert(chans >= 2) by {
                    if chans == 1 {
                        assert(total % 1 == 0) by (nonlinear_arith);
                    }
                }
                lemma_fundamental_div_mod(total as int, chans as int);
                assert(total as int / chans as int + 1 <= usize::MAX) by (nonlinear_arith)
                    requires
                        chans >= 2,
                        total as int == (chans as int) * ((total as int) / (chans as int)) + (
                        total as int) % (chans as int),
                        0 <= (total as int) % (chans as int),
                        (total as int) % (chans as int) < chans as int,
                        total <= usize::MAX,
                ;
            }
        }
        let count = if total % chans == 0 {
            total / chans
        } else {
            total / chans + 1
        };
        proof {
            assert(chans as int * bytes_per as int <= 65535 * 4) by (nonlinear_arith)
                requires
                    0 <= chans as int <= 65535,
                    0 <= bytes_per as int <= 4,
            ;
        }
        let stride = chans * bytes_per;
        let mut samples: Vec<i32> = Vec::new();
        let ghost expected = wav_samples(
            data@,
            data_off as int,
            chans as int,
            bytes_per as int,
            bits as int,
            count as int,
        );
        let mut k: usize = 0;
        while k < count
            invariant
                0 <= k <= count,
                samples@.len() == k,
                bytes_per == 1 || bytes_per == 2 || bytes_per == 3 || bytes_per == 4,
                bits == 8 || bits == 16 || bits == 24 || bits == 32,
                bytes_per as int == bits as int / 8,
                chans >= 1,
                stride == chans * bytes_per,
                total == data_sz / bytes_per,
                count as int == (total as int + chans - 1) / chans as int,
                data_off + data_sz <= data@.len(),
                expected == wav_samples(
                    data@,
                    data_off as int,
                    chans as int,
                    bytes_per as int,
                    bits as int,
                    count as int,
                ),
                forall|j: int| 0 <= j < k ==> samples@[j] == expected[j],
            decreases count - k,
        {
            proof {
                lemma_sample_in_bounds(
                    total as int,
                    chans as int,
                    bytes_per as int,
                    data_sz as int,
                    k as int,
                );
                assert(k as int * stride as int == k as int * chans as int * bytes_per as int)
                    by (nonlinear_arith)
                    requires
                        stride as int == chans as int * bytes_per as int,
                ;
                assert(data@.len() == data.len());
            }
            let off = data_off + k * stride;
            let v = read_pcm_exec(data, off, bytes_per);
            let d: i64 = if bits == 8 {
                127
            } else if bits == 16 {
                32767
            } else if bits == 24 {
                8388607
            } else {
                2147483647
            };
            let m = round_div_exec(v * 1_000_000, d);
            proof {
                lemma_norm_bound(v as int, bits as int);
            }
            samples.push(m as i32);
            k = k + 1;
        }
        proof {
            assert(samples@ =~= expected);
        }
        Ok(Clip::new(samples))
    }
}

/// `total / c` rounded up, written with a remainder test.
proof fn lemma_ceil_div(total: int, c: int)
    requires
        total >= 0,
        c >= 1,
    ensures
        total / c + (if total % c == 0 {
            0int
        } else {
            1int
        }) == (total + c - 1) / c,
{
    lemma_fundamental_div_mod(total, c);
    let q = total / c;
    let r = total % c;
    if r == 0 {
        assert((total + c - 1) == c * q + (c - 1));
        vstd::arithmetic::div_mod::lemma_div_multiples_vanish_fancy(q, c - 1, c);
    } else {
        assert((total + c - 1) == c * (q + 1) + (r - 1)) by (nonlinear_arith)
            requires
                total == c * q + r,
        ;
        vstd::arithmetic::div_mod::lemma_div_multiples_vanish_fancy(q + 1, r - 1, c);
    }
}

/// Every decoded sample's bytes lie inside the data block.
proof fn lemma_sample_in_bounds(total: int, c: int, bp: int, data_sz: int, k: int)
    requires
        c >= 1,
        bp >= 1,
        total == data_sz / bp,
        data_sz >= 0,
        0 <= k < (total + c - 1) / c,
    ensures
        k * c * bp + bp <= data_sz,
        k * c * bp >= 0,
{
    lemma_ceil_div(total, c);
    lemma_fundamental_div_mod(total, c);
    assert(k <= (total + c - 1) / c - 1);
    assert(k * c <= total - 1) by (nonlinear_arith)
        requires
            c >= 1,
            k <= (total + c - 1) / c - 1,
            (total + c - 1) / c == total / c + (if total % c == 0 {
                0int
            } else {
                1int
            }),
            total == c * (total / c) + total % c,
            0 <= total % c < c,
            k >= 0,
    ;
    lemma_fundamental_div_mod(data_sz, bp);
    assert(k * c * bp + bp <= total * bp) by (nonlinear_arith)
        requires
            bp >= 1,
            k * c <= total - 1,
            k >= 0,
            c >= 1,
    ;
    assert(total * bp <= data_sz) by (nonlinear_arith)
        requires
            total == data_sz / bp,
            data_sz == bp * (data_sz / bp) + data_sz % bp,
            data_sz % bp >= 0,
    ;
    assert(k * c * bp >= 0) by (nonlinear_arith)
        requires
            k >= 0,
            c >= 1,
            bp >= 1,
    ;
}

/// A normalized sample stays near the nominal range: full-range PCM maps
/// to just over full scale.
proof fn lemma_norm_bound(v: int, bits: int)
    requires
        bits == 8 || bits == 16 || bits == 24 || bits == 32,
        bits == 8 ==> -0x80 <= v < 0x80,
        bits == 16 ==> -0x8000 <= v < 0x8000,
        bits == 24 ==> -0x80_0000 <= v < 0x80_0000,
        bits == 32 ==> -0x8000_0000 <= v < 0x8000_0000,
    ensures
        -1_100_000 <= norm_sample(v, bits) <= 1_100_000,
{
    let d = pcm_divisor(bits);
    let lim: int = if bits == 8 {
        0x80
    } else if bits == 16 {
        0x8000
    } else if bits == 24 {
        0x80_0000
    } else {
        0x8000_0000
    };
    if bits == 8 {
        assert((0x80int * 1_000_000 + 127int / 2) / 127int <= 1_100_000);
    } else if bits == 16 {
        assert((0x8000int * 1_000_000 + 32767int / 2) / 32767int <= 1_100_000);
    } else if bits == 24 {
        assert((0x80_0000int * 1_000_000 + 8388607int / 2) / 8388607int <= 1_100_000);
    } else {
        assert((0x8000_0000int * 1_000_000 + 2147483647int / 2) / 2147483647int <= 1_100_000);
    }
    if v >= 0 {
        lemma_div_is_ordered(v * 1_000_000 + d / 2, lim * 1_000_000 + d / 2, d);
        lemma_div_pos(v * 1_000_000 + d / 2, d);
    } else {
        lemma_div_is_ordered(-v * 1_000_000 + d / 2, lim * 1_000_000 + d / 2, d);
        lemma_div_pos(-v * 1_000_000 + d / 2, d);
    }
}

/// A non-negative dividend gives a non-negative quotient.
proof fn lemma_div_pos(x: int, d: int)
    requires
        x >= 0,
        d >= 1,
    ensures
        x / d >= 0,
{
    vstd::arithmetic::div_mod::lemma_div_pos_is_pos(x, d);
}


/// The bytes of `le16` are the value's little-endian representation; a
/// 16-bit read recomposes it, and the signed read recovers a signed value.
proof fn lemma_read_le16(b: Seq<u8>, off: int, v: int)
    requires
        0 <= off,
        off + 2 <= b.len(),
        -0x8000 <= v < 0x8000,
        b.subrange(off, off + 2) == le16(v),
    ensures
        read_pcm(b, off, 2) == v,
{
    let u = if v < 0 {
        v + 0x1_0000
    } else {
        v
    };
    assert(0 <= u < 0x1_0000);
    assert(b[off] == (u % 256) as u8 && b[off + 1] == ((u / 256) % 256) as u8) by {
        assert(b.subrange(off, off + 2)[0] == le16(v)[0]);
        assert(b.subrange(off, off + 2)[1] == le16(v)[1]);
    }
    vstd::arithmetic::div_mod::lemma_fundamental_div_mod(u, 256);
    assert(u / 256 < 256) by (nonlinear_arith)
        requires
            0 <= u < 0x1_0000,
    ;
    assert((u / 256) % 256 == u / 256) by {
        vstd::arithmetic::div_mod::lemma_small_mod((u / 256) as nat, 256nat);
        lemma_div_pos(u, 256);
    }
    assert(read_u16(b, off) == u % 256 + 256 * (u / 256));
    assert(u % 256 + 256 * (u / 256) == u);
    if v < 0 {
        assert(u >= 0x8000);
    } else {
        assert(u < 0x8000 || v >= 0x8000);
    }
}

/// A 32-bit read recomposes the bytes of `le32`.
proof fn lemma_read_le32(b: Seq<u8>, off: int, v: int)
    requires
        0 <= off,
        off + 4 <= b.len(),
        0 <= v < 0x1_0000_0000,
        b.subrange(off, off + 4) == le32(v),
    ensures
        read_u32(b, off) == v,
{
    assert(b[off] == (v % 256) as u8 && b[off + 1] == ((v / 256) % 256) as u8 && b[off + 2] == ((v
        / 0x1_0000) % 256) as u8 && b[off + 3] == ((v / 0x100_0000) % 256) as u8) by {
        assert(b.subrange(off, off + 4)[0] == le32(v)[0]);
        assert(b.subrange(off, off + 4)[1] == le32(v)[1]);
        assert(b.subrange(off, off + 4)[2] == le32(v)[2]);
        assert(b.subrange(off, off + 4)[3] == le32(v)[3]);
    }
    assert(v == 256 * (v / 256) + v % 256 && v / 256 == 256 * (v / 256 / 256) + (v / 256) % 256
        && v / 256 / 256 == 256 * (v / 256 / 256 / 256) + (v / 256 / 256) % 256 && v / 256 / 256
        / 256 < 256 && v / 256 / 256 / 256 >= 0 && v / 0x1_0000 == v / 256 / 256 && v / 0x100_0000
        == v / 256 / 256 / 256) by (nonlinear_arith)
        requires
            0 <= v < 0x1_0000_0000,
    ;
    assert((v / 0x100_0000) % 256 == v / 0x100_0000) by {
        vstd::arithmetic::div_mod::lemma_small_mod((v / 0x100_0000) as nat, 256nat);
    }
    assert(read_u32(b, off) == v % 256 + 256 * ((v / 256) % 256) + 0x1_0000 * ((v / 0x1_0000)
        % 256) + 0x100_0000 * (v / 0x100_0000));
    assert(v % 256 + 256 * ((v / 256) % 256) + 0x1_0000 * ((v / 0x1_0000) % 256) + 0x100_0000 * (v
        / 0x100_0000) == v) by (nonlinear_arith)
        requires
            0 <= v < 0x1_0000_0000,
            v == 256 * (v / 256) + v % 256,
            v / 256 == 256 * (v / 0x1_0000) + (v / 256) % 256,
            v / 0x1_0000 == 256 * (v / 0x100_0000) + (v / 0x1_0000) % 256,
    ;
}

/// A subrange taken inside the left part of a concatenation.
proof fn lemma_subrange_left(a: Seq<u8>, c: Seq<u8>, i: int, j: int)
    requires
        0 <= i <= j <= a.len(),
    ensures
        (a + c).subrange(i, j) == a.subrange(i, j),
{
    assert((a + c).subrange(i, j) =~= a.subrange(i, j));
}

/// Sample `k`'s two bytes inside the encoded data block.
proof fn lemma_wav_data_index(samples: Seq<int>, n: int, k: int)
    requires
        0 <= k < n <= samples.len(),
    ensures
        wav_data_bytes(samples, n).len() == 2 * n,
        wav_data_bytes(samples, n).subrange(2 * k, 2 * k + 2) == le16(quant16(samples[k])),
    decreases n,
{
    lemma_wav_data_len(samples, n);
    let w = wav_data_bytes(samples, n);
    let prev = wav_data_bytes(samples, n - 1);
    let e = le16(quant16(samples[n - 1]));
    lemma_wav_data_len(samples, n - 1);
    if k == n - 1 {
        assert(w.subrange(2 * k, 2 * k + 2) =~= e);
    } else {
        lemma_wav_data_index(samples, n - 1, k);
        lemma_subrange_left(prev, e, 2 * k, 2 * k + 2);
    }
}

/// The encoded data block's length.
proof fn lemma_wav_data_len(samples: Seq<int>, n: int)
    requires
        0 <= n <= samples.len(),
    ensures
        wav_data_bytes(samples, n).len() == 2 * n,
    decreases n,
{
    if n > 0 {
        lemma_wav_data_len(samples, n - 1);
    }
}



/// Where each region of an encoded WAV file lies.
#[verifier::rlimit(100)]
#[verifier::spinoff_prover]
proof fn lemma_wav_bytes_regions(sample_rate: int, samples: Seq<int>)
    ensures
        ({
            let b = wav_bytes(sample_rate, samples);
            let n = samples.len() as int;
            &&& b.len() == 44 + 2 * n
            &&& b.subrange(0, 4) == seq![0x52u8, 0x49u8, 0x46u8, 0x46u8]
            &&& b.subrange(4, 8) == le32(36 + 2 * n)
            &&& b.subrange(8, 12) == seq![0x57u8, 0x41u8, 0x56u8, 0x45u8]
            &&& b.subrange(12, 16) == seq![0x66u8, 0x6Du8, 0x74u8, 0x20u8]
            &&& b.subrange(16, 20) == le32(16)
            &&& b.subrange(20, 22) == le16(1)
            &&& b.subrange(22, 24) == le16(1)
            &&& b.subrange(24, 28) == le32(sample_rate)
            &&& b.subrange(28, 32) == le32(2 * sample_rate)
            &&& b.subrange(32, 34) == le16(2)
            &&& b.subrange(34, 36) == le16(16)
            &&& b.subrange(36, 40) == seq![0x64u8, 0x61u8, 0x74u8, 0x61u8]
            &&& b.subrange(40, 44) == le32(2 * n)
            &&& b.subrange(44, 44 + 2 * n) == wav_data_bytes(samples, n)
        }),
{
    let b = wav_bytes(sample_rate, samples);
    let n = samples.len() as int;
    lemma_wav_data_len(samples, n);
    let riff = seq![0x52u8, 0x49u8, 0x46u8, 0x46u8];
    let wave = seq![0x57u8, 0x41u8, 0x56u8, 0x45u8];
    let fmt = seq![0x66u8, 0x6Du8, 0x74u8, 0x20u8];
    let dat = seq![0x64u8, 0x61u8, 0x74u8, 0x61u8];
    let c1 = riff + le32(36 + 2 * n);
    let c2 = c1 + wave;
    let c3 = c2 + fmt;
    let c4 = c3 + le32(16);
    let c5 = c4 + le16(1);
    let c6 = c5 + le16(1);
    let c7 = c6 + le32(sample_rate);
    let c8 = c7 + le32(2 * sample_rate);
    let c9 = c8 + le16(2);
    let c10 = c9 + le16(16);
    let c11 = c10 + dat;
    let c12 = c11 + le32(2 * n);
    assert(b.subrange(0, b.len() as int) =~= b);
    crate::json::lemma_subrange_split(b, 0, c12, wav_data_bytes(samples, n));
    crate::json::lemma_subrange_split(b, 0, c11, le32(2 * n));
    crate::json::lemma_subrange_split(b, 0, c10, dat);
    crate::json::lemma_subrange_split(b, 0, c9, le16(16));
    crate::json::lemma_subrange_split(b, 0, c8, le16(2));
    crate::json::lemma_subrange_split(b, 0, c7, le32(2 * sample_rate));
    crate::json::lemma_subrange_split(b, 0, c6, le32(sample_rate));
    crate::json::lemma_subrange_split(b, 0, c5, le16(1));
    crate::json::lemma_subrange_split(b, 0, c4, le16(1));
    crate::json::lemma_subrange_split(b, 0, c3, le32(16));
    crate::json::lemma_subrange_split(b, 0, c2, fmt);
    crate::json::lemma_subrange_split(b, 0, c1, wave);
    crate::json::lemma_subrange_split(b, 0, riff, le32(36 + 2 * n));
}

/// Assembling the decode of an encoded file from its regions.
#[verifier::rlimit(100)]
#[verifier::spinoff_prover]
proof fn lemma_wav_decode_assembly(b: Seq<u8>, sample_rate: u32, samples: Seq<int>)
    requires
        2 * samples.len() + 36 <= u32::MAX,
        ({
            let n = samples.len() as int;
            &&& b.len() == 44 + 2 * n
            &&& b.subrange(0, 4) == seq![0x52u8, 0x49u8, 0x46u8, 0x46u8]
            &&& b.subrange(8, 12) == seq![0x57u8, 0x41u8, 0x56u8, 0x45u8]
            &&& b.subrange(12, 16) == seq![0x66u8, 0x6Du8, 0x74u8, 0x20u8]
            &&& b.subrange(16, 20) == le32(16)
            &&& b.subrange(20, 22) == le16(1)
            &&& b.subrange(22, 24) == le16(1)
            &&& b.subrange(24, 28) == le32(sample_rate as int)
            &&& b.subrange(34, 36) == le16(16)
            &&& b.subrange(36, 40) == seq![0x64u8, 0x61u8, 0x74u8, 0x61u8]
            &&& b.subrange(40, 44) == le32(2 * n)
            &&& b.subrange(44, 44 + 2 * n) == wav_data_bytes(samples, n)
        }),
    ensures
        wav_decode(b, sample_rate as int) == Ok::<Seq<i32>, ClipError>(
            Seq::new(samples.len(), |k: int| norm_sample(quant16(samples[k]), 16) as i32),
        ),
{
    let n = samples.len() as int;
    assert(has_id(b, 0, 0x52, 0x49, 0x46, 0x46)) by {
        assert(b.subrange(0, 4)[0] == 0x52u8);
        assert(b.subrange(0, 4)[1] == 0x49u8);
        assert(b.subrange(0, 4)[2] == 0x46u8);
        assert(b.subrange(0, 4)[3] == 0x46u8);
    }
    assert(has_id(b, 8, 0x57, 0x41, 0x56, 0x45)) by {
        assert(b.subrange(8, 12)[0] == 0x57u8);
        assert(b.subrange(8, 12)[1] == 0x41u8);
        assert(b.subrange(8, 12)[2] == 0x56u8);
        assert(b.subrange(8, 12)[3] == 0x45u8);
    }
    assert(has_id(b, 12, 0x66, 0x6D, 0x74, 0x20)) by {
        assert(b.subrange(12, 16)[0] == 0x66u8);
        assert(b.subrange(12, 16)[1] == 0x6Du8);
        assert(b.subrange(12, 16)[2] == 0x74u8);
        assert(b.subrange(12, 16)[3] == 0x20u8);
    }
    lemma_read_le32(b, 16, 16);
    assert(find_chunk(b, 12, 0x66, 0x6D, 0x74, 0x20) == Some((20int, 16int)));
    assert(!has_id(b, 12, 0x64, 0x61, 0x74, 0x61)) by {
        assert(b.subrange(12, 16)[0] == 0x66u8);
    }
    assert(has_id(b, 36, 0x64, 0x61, 0x74, 0x61)) by {
        assert(b.subrange(36, 40)[0] == 0x64u8);
        assert(b.subrange(36, 40)[1] == 0x61u8);
        assert(b.subrange(36, 40)[2] == 0x74u8);
        assert(b.subrange(36, 40)[3] == 0x61u8);
    }
    lemma_read_le32(b, 40, 2 * n);
    assert(find_chunk(b, 36, 0x64, 0x61, 0x74, 0x61) == Some((44int, 2 * n)));
    assert(find_chunk(b, 12, 0x64, 0x61, 0x74, 0x61) == find_chunk(b, 36, 0x64, 0x61, 0x74, 0x61));
    lemma_read_le16_unsigned(b, 20, 1);
    lemma_read_le16_unsigned(b, 22, 1);
    lemma_read_le32(b, 24, sample_rate as int);
    lemma_read_le16_unsigned(b, 34, 16);
    assert((2 * n) / 2 == n) by (nonlinear_arith);
    assert((n + 1 - 1) / 1 == n) by (nonlinear_arith);
    let expected = Seq::new(
        samples.len(),
        |k: int| norm_sample(quant16(samples[k]), 16) as i32,
    );
    assert forall|k: int| 0 <= k < n implies wav_samples(b, 44, 1, 2, 16, n)[k] == expected[k] by {
        lemma_wav_data_index(samples, n, k);
        lemma_subrange_of_subrange(b, 44, 44 + 2 * n, 2 * k, 2 * k + 2);
        lemma_quant16_range(samples[k]);
        lemma_read_le16(b, 44 + 2 * k, quant16(samples[k]));
        assert(k * 1 * 2 == 2 * k) by (nonlinear_arith);
    }
    assert(wav_samples(b, 44, 1, 2, 16, n) =~= expected);
}

/// Decoding an encoded WAV file succeeds and yields each sample quantized
/// to 16 bits and normalized back, given a file small enough for the
/// container's 32-bit sizes.
pub proof fn lemma_wav_roundtrip(sample_rate: u32, samples: Seq<int>)
    requires
        2 * samples.len() + 36 <= u32::MAX,
    ensures
        wav_decode(wav_bytes(sample_rate as int, samples), sample_rate as int) == Ok::<
            Seq<i32>,
            ClipError,
        >(Seq::new(samples.len(), |k: int| norm_sample(quant16(samples[k]), 16) as i32)),
{
    lemma_wav_bytes_regions(sample_rate as int, samples);
    lemma_wav_decode_assembly(wav_bytes(sample_rate as int, samples), sample_rate, samples);
}

/// A 16-bit read of a small unsigned value's bytes.
proof fn lemma_read_le16_unsigned(b: Seq<u8>, off: int, v: int)
    requires
        0 <= off,
        off + 2 <= b.len(),
        0 <= v < 0x8000,
        b.subrange(off, off + 2) == le16(v),
    ensures
        read_u16(b, off) == v,
{
    lemma_read_le16(b, off, v);
    assert(read_pcm(b, off, 2) == read_u16(b, off) || read_u16(b, off) >= 0x8000);
    assert(read_u16(b, off) == b[off] + 256 * b[off + 1]);
    assert(b[off] == (v % 256) as u8 && b[off + 1] == ((v / 256) % 256) as u8) by {
        assert(b.subrange(off, off + 2)[0] == le16(v)[0]);
        assert(b.subrange(off, off + 2)[1] == le16(v)[1]);
    }
    vstd::arithmetic::div_mod::lemma_fundamental_div_mod(v, 256);
    assert(v / 256 < 256 && v / 256 >= 0) by (nonlinear_arith)
        requires
            0 <= v < 0x8000,
    ;
    assert((v / 256) % 256 == v / 256) by {
        vstd::arithmetic::div_mod::lemma_small_mod((v / 256) as nat, 256nat);
    }
}

/// A quantized sample fits 16 signed bits.
proof fn lemma_quant16_range(m: int)
    ensures
        -32767 <= quant16(m) <= 32767,
{
    let c = crate::sample::clamp_spec(m);
    assert(-1_000_000 <= c <= 1_000_000);
    if c >= 0 {
        lemma_div_is_ordered(c * 32767 + 500_000, 1_000_000int * 32767 + 500_000, 1_000_000);
        assert((1_000_000int * 32767 + 500_000) / 1_000_000 == 32767);
        lemma_div_pos(c * 32767 + 500_000, 1_000_000);
        assert(c * 32767 >= 0) by (nonlinear_arith)
            requires
                c >= 0,
        ;
        assert(c * 32767 <= 1_000_000int * 32767) by (nonlinear_arith)
            requires
                0 <= c <= 1_000_000,
        ;
    } else {
        assert(-(c * 32767) <= 1_000_000int * 32767 && -(c * 32767) >= 0) by (nonlinear_arith)
            requires
                -1_000_000 <= c < 0,
        ;
        lemma_div_is_ordered(-(c * 32767) + 500_000, 1_000_000int * 32767 + 500_000, 1_000_000);
        assert((1_000_000int * 32767 + 500_000) / 1_000_000 == 32767);
        lemma_div_pos(-(c * 32767) + 500_000, 1_000_000);
    }
}

/// A subrange of a subrange, re-based.
proof fn lemma_subrange_of_subrange(b: Seq<u8>, lo: int, hi: int, i: int, j: int)
    requires
        0 <= lo <= hi <= b.len(),
        0 <= i <= j <= hi - lo,
    ensures
        b.subrange(lo, hi).subrange(i, j) == b.subrange(lo + i, lo + j),
{
    assert(b.subrange(lo, hi).subrange(i, j) =~= b.subrange(lo + i, lo + j));
}


} // verus!
