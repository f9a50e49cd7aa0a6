//! Project persistence: a self-describing text serialization and its
//! parser.
//!
//! A saved project is one JSON-shaped text holding the sample rate, the
//! timeline structure, and the full clip store. The parser accepts exactly
//! the canonical form this module emits.

use vstd::prelude::*;

use crate::clip_database::ClipId;
use crate::clip::Clip;
use crate::clip_database::ClipDatabase;
use crate::project::{Project, ProjectError};
use crate::sine::SineGenerator;
use crate::timeline::Timeline;
use crate::track::{ClipInstance, Track};

verus! {

/// The bytes of the literal `{\"sample_rate\":`.
pub open spec fn tok_head() -> Seq<u8> {
    seq![123u8, 34u8, 115u8, 97u8, 109u8, 112u8, 108u8, 101u8, 95u8, 114u8, 97u8, 116u8, 101u8, 34u8, 58u8]
}

/// The bytes of the literal `,\"timeline\":{\"tracks\":[`.
pub open spec fn tok_timeline() -> Seq<u8> {
    seq![44u8, 34u8, 116u8, 105u8, 109u8, 101u8, 108u8, 105u8, 110u8, 101u8, 34u8, 58u8, 123u8, 34u8, 116u8, 114u8, 97u8, 99u8, 107u8, 115u8, 34u8, 58u8, 91u8]
}

/// The bytes of the literal `]},\"clip_database\":{\"clips\":[`.
pub open spec fn tok_store() -> Seq<u8> {
    seq![93u8, 125u8, 44u8, 34u8, 99u8, 108u8, 105u8, 112u8, 95u8, 100u8, 97u8, 116u8, 97u8, 98u8, 97u8, 115u8, 101u8, 34u8, 58u8, 123u8, 34u8, 99u8, 108u8, 105u8, 112u8, 115u8, 34u8, 58u8, 91u8]
}

/// The bytes of the literal `]}}`.
pub open spec fn tok_tail() -> Seq<u8> {
    seq![93u8, 125u8, 125u8]
}

/// The bytes of the literal `{\"clips\":[`.
pub open spec fn tok_track_open() -> Seq<u8> {
    seq![123u8, 34u8, 99u8, 108u8, 105u8, 112u8, 115u8, 34u8, 58u8, 91u8]
}

/// The bytes of the literal `]}`.
pub open spec fn tok_track_close() -> Seq<u8> {
    seq![93u8, 125u8]
}

/// The bytes of the literal `{\"time\":`.
pub open spec fn tok_inst_open() -> Seq<u8> {
    seq![123u8, 34u8, 116u8, 105u8, 109u8, 101u8, 34u8, 58u8]
}

/// The bytes of the literal `,\"clip_id\":`.
pub open spec fn tok_inst_mid() -> Seq<u8> {
    seq![44u8, 34u8, 99u8, 108u8, 105u8, 112u8, 95u8, 105u8, 100u8, 34u8, 58u8]
}

/// The bytes of the literal `}`.
pub open spec fn tok_inst_close() -> Seq<u8> {
    seq![125u8]
}

/// The bytes of the literal `{\"data\":[`.
pub open spec fn tok_clip_open() -> Seq<u8> {
    seq![123u8, 34u8, 100u8, 97u8, 116u8, 97u8, 34u8, 58u8, 91u8]
}

/// The bytes of the literal `]}`.
pub open spec fn tok_clip_close() -> Seq<u8> {
    seq![93u8, 125u8]
}
/// The decimal digit characters of a non-negative number.
pub open spec fn dec_digits(n: int) -> Seq<u8>
    decreases n,
{
    if n < 10 {
        seq![(48 + n) as u8]
    } else {
        dec_digits(n / 10).push((48 + n % 10) as u8)
    }
}

/// The decimal text of an integer, with a leading minus sign if negative.
pub open spec fn int_bytes(v: int) -> Seq<u8> {
    if v < 0 {
        seq![45u8] + dec_digits(-v)
    } else {
        dec_digits(v)
    }
}

/// The serialized placement: its time and its clip identifier.
pub open spec fn inst_bytes(c: ClipInstance) -> Seq<u8> {
    tok_inst_open() + dec_digits(c.time as int) + tok_inst_mid() + dec_digits(c.clip_id@)
        + tok_inst_close()
}

/// The first `j` placements of a track, comma-separated.
pub open spec fn insts_bytes(clips: Seq<ClipInstance>, j: int) -> Seq<u8>
    decreases j,
{
    if j <= 0 {
        Seq::empty()
    } else if j == 1 {
        inst_bytes(clips[0])
    } else {
        insts_bytes(clips, j - 1) + seq![44u8] + inst_bytes(clips[j - 1])
    }
}

/// A serialized track: its placement list.
pub open spec fn track_bytes(clips: Seq<ClipInstance>) -> Seq<u8> {
    tok_track_open() + insts_bytes(clips, clips.len() as int) + tok_track_close()
}

/// The first `j` tracks, comma-separated.
pub open spec fn tracks_bytes(tracks: Seq<Seq<ClipInstance>>, j: int) -> Seq<u8>
    decreases j,
{
    if j <= 0 {
        Seq::empty()
    } else if j == 1 {
        track_bytes(tracks[0])
    } else {
        tracks_bytes(tracks, j - 1) + seq![44u8] + track_bytes(tracks[j - 1])
    }
}

/// The first `j` samples of a clip, comma-separated.
pub open spec fn samples_bytes(data: Seq<i32>, j: int) -> Seq<u8>
    decreases j,
{
    if j <= 0 {
        Seq::empty()
    } else if j == 1 {
        int_bytes(data[0] as int)
    } else {
        samples_bytes(data, j - 1) + seq![44u8] + int_bytes(data[j - 1] as int)
    }
}

/// A serialized clip: its sample data.
pub open spec fn clip_bytes(data: Seq<i32>) -> Seq<u8> {
    tok_clip_open() + samples_bytes(data, data.len() as int) + tok_clip_close()
}

/// The first `j` stored clips, comma-separated.
pub open spec fn clips_bytes(db: Seq<Seq<i32>>, j: int) -> Seq<u8>
    decreases j,
{
    if j <= 0 {
        Seq::empty()
    } else if j == 1 {
        clip_bytes(db[0])
    } else {
        clips_bytes(db, j - 1) + seq![44u8] + clip_bytes(db[j - 1])
    }
}

/// A whole serialized project: sample rate, timeline and clip store.
pub open spec fn project_bytes(
    sample_rate: int,
    tracks: Seq<Seq<ClipInstance>>,
    db: Seq<Seq<i32>>,
) -> Seq<u8> {
    tok_head() + dec_digits(sample_rate) + tok_timeline() + tracks_bytes(
        tracks,
        tracks.len() as int,
    ) + tok_store() + clips_bytes(db, db.len() as int) + tok_tail()
}

/// Whether a byte is a decimal digit.
pub open spec fn is_digit(c: u8) -> bool {
    48 <= c <= 57
}

/// Consume a run of digits, folding them onto an accumulator.
pub open spec fn digits_run(b: Seq<u8>, pos: int, acc: int) -> (int, int)
    decreases b.len() - pos,
{
    if 0 <= pos < b.len() && is_digit(b[pos]) {
        digits_run(b, pos + 1, acc * 10 + (b[pos] - 48))
    } else {
        (acc, pos)
    }
}

/// Parse a non-negative number: at least one digit.
pub open spec fn parse_digits(b: Seq<u8>, pos: int) -> Option<(int, int)> {
    if 0 <= pos < b.len() && is_digit(b[pos]) {
        Some(digits_run(b, pos, 0))
    } else {
        None
    }
}

/// Parse an optionally negated number.
pub open spec fn parse_int(b: Seq<u8>, pos: int) -> Option<(int, int)> {
    if 0 <= pos < b.len() && b[pos] == 45 {
        match parse_digits(b, pos + 1) {
            Some((v, p)) => Some((-v, p)),
            None => None,
        }
    } else {
        parse_digits(b, pos)
    }
}

/// Expect an exact literal.
pub open spec fn parse_lit(b: Seq<u8>, pos: int, lit: Seq<u8>) -> Option<int> {
    if 0 <= pos && pos + lit.len() <= b.len() && b.subrange(pos, pos + lit.len() as int) == lit {
        Some(pos + lit.len() as int)
    } else {
        None
    }
}

/// Parse one placement object; positions must fit the machine.
pub open spec fn parse_instance(b: Seq<u8>, pos: int) -> Option<(ClipInstance, int)> {
    match parse_lit(b, pos, tok_inst_open()) {
        None => None,
        Some(p1) => match parse_digits(b, p1) {
            None => None,
            Some((time, p2)) => if time <= usize::MAX {
                match parse_lit(b, p2, tok_inst_mid()) {
                    None => None,
                    Some(p3) => match parse_digits(b, p3) {
                        None => None,
                        Some((id, p4)) => if id <= usize::MAX {
                            match parse_lit(b, p4, tok_inst_close()) {
                                None => None,
                                Some(p5) => Some(
                                    (
                                        ClipInstance {
                                            time: time as usize,
                                            clip_id: ClipId(id as usize),
                                        },
                                        p5,
                                    ),
                                ),
                            }
                        } else {
                            None
                        },
                    },
                }
            } else {
                None
            },
        },
    }
}

/// The remainder of a `]`-terminated placement list, after its first
/// element; the closing bracket is not consumed.
pub open spec fn parse_insts_tail(b: Seq<u8>, pos: int, acc: Seq<ClipInstance>) -> Option<
    (Seq<ClipInstance>, int),
>
    decreases b.len() - pos,
{
    if 0 <= pos < b.len() && b[pos] == 93 {
        Some((acc, pos))
    } else if 0 <= pos < b.len() && b[pos] == 44 {
        match parse_instance(b, pos + 1) {
            Some((c, p)) => if p > pos && p <= b.len() {
                parse_insts_tail(b, p, acc.push(c))
            } else {
                None
            },
            None => None,
        }
    } else {
        None
    }
}

/// A possibly-empty `]`-terminated placement list; the closing bracket is
/// not consumed.
pub open spec fn parse_insts(b: Seq<u8>, pos: int) -> Option<(Seq<ClipInstance>, int)> {
    if 0 <= pos < b.len() && b[pos] == 93 {
        Some((Seq::empty(), pos))
    } else {
        match parse_instance(b, pos) {
            Some((c, p)) => if p > pos && p <= b.len() {
                parse_insts_tail(b, p, seq![c])
            } else {
                None
            },
            None => None,
        }
    }
}

/// Parse one serialized track.
pub open spec fn parse_track(b: Seq<u8>, pos: int) -> Option<(Seq<ClipInstance>, int)> {
    match parse_lit(b, pos, tok_track_open()) {
        None => None,
        Some(p1) => match parse_insts(b, p1) {
            None => None,
            Some((clips, p2)) => match parse_lit(b, p2, tok_track_close()) {
                None => None,
                Some(p3) => Some((clips, p3)),
            },
        },
    }
}

/// The remainder of a `]`-terminated track list, after its first element.
pub open spec fn parse_tracks_tail(b: Seq<u8>, pos: int, acc: Seq<Seq<ClipInstance>>) -> Option<
    (Seq<Seq<ClipInstance>>, int),
>
    decreases b.len() - pos,
{
    if 0 <= pos < b.len() && b[pos] == 93 {
        Some((acc, pos))
    } else if 0 <= pos < b.len() && b[pos] == 44 {
        match parse_track(b, pos + 1) {
            Some((t, p)) => if p > pos && p <= b.len() {
                parse_tracks_tail(b, p, acc.push(t))
            } else {
                None
            },
            None => None,
        }
    } else {
        None
    }
}

/// A possibly-empty `]`-terminated track list.
pub open spec fn parse_tracks(b: Seq<u8>, pos: int) -> Option<(Seq<Seq<ClipInstance>>, int)> {
    if 0 <= pos < b.len() && b[pos] == 93 {
        Some((Seq::empty(), pos))
    } else {
        match parse_track(b, pos) {
            Some((t, p)) => if p > pos && p <= b.len() {
                parse_tracks_tail(b, p, seq![t])
            } else {
                None
            },
            None => None,
        }
    }
}

/// Parse one sample amplitude; it must fit the sample type.
pub open spec fn parse_sample(b: Seq<u8>, pos: int) -> Option<(i32, int)> {
    match parse_int(b, pos) {
        Some((v, p)) => if -0x8000_0000 <= v <= 0x7FFF_FFFF {
            Some((v as i32, p))
        } else {
            None
        },
        None => None,
    }
}

/// The remainder of a `]`-terminated sample list, after its first element.
pub open spec fn parse_samples_tail(b: Seq<u8>, pos: int, acc: Seq<i32>) -> Option<(Seq<i32>, int)>
    decreases b.len() - pos,
{
    if 0 <= pos < b.len() && b[pos] == 93 {
        Some((acc, pos))
    } else if 0 <= pos < b.len() && b[pos] == 44 {
        match parse_sample(b, pos + 1) {
            Some((v, p)) => if p > pos && p <= b.len() {
                parse_samples_tail(b, p, acc.push(v))
            } else {
                None
            },
            None => None,
        }
    } else {
        None
    }
}

/// A possibly-empty `]`-terminated sample list.
pub open spec fn parse_samples(b: Seq<u8>, pos: int) -> Option<(Seq<i32>, int)> {
    if 0 <= pos < b.len() && b[pos] == 93 {
        Some((Seq::empty(), pos))
    } else {
        match parse_sample(b, pos) {
            Some((v, p)) => if p > pos && p <= b.len() {
                parse_samples_tail(b, p, seq![v])
            } else {
                None
            },
            None => None,
        }
    }
}

/// Parse one serialized clip.
pub open spec fn parse_clip(b: Seq<u8>, pos: int) -> Option<(Seq<i32>, int)> {
    match parse_lit(b, pos, tok_clip_open()) {
        None => None,
        Some(p1) => match parse_samples(b, p1) {
            None => None,
            Some((data, p2)) => match parse_lit(b, p2, tok_clip_close()) {
                None => None,
                Some(p3) => Some((data, p3)),
            },
        },
    }
}

/// The remainder of a `]`-terminated clip list, after its first element.
pub open spec fn parse_clips_tail(b: Seq<u8>, pos: int, acc: Seq<Seq<i32>>) -> Option<
    (Seq<Seq<i32>>, int),
>
    decreases b.len() - pos,
{
    if 0 <= pos < b.len() && b[pos] == 93 {
        Some((acc, pos))
    } else if 0 <= pos < b.len() && b[pos] == 44 {
        match parse_clip(b, pos + 1) {
            Some((d, p)) => if p > pos && p <= b.len() {
                parse_clips_tail(b, p, acc.push(d))
            } else {
                None
            },
            None => None,
        }
    } else {
        None
    }
}

/// A possibly-empty `]`-terminated clip list.
pub open spec fn parse_clips(b: Seq<u8>, pos: int) -> Option<(Seq<Seq<i32>>, int)> {
    if 0 <= pos < b.len() && b[pos] == 93 {
        Some((Seq::empty(), pos))
    } else {
        match parse_clip(b, pos) {
            Some((d, p)) => if p > pos && p <= b.len() {
                parse_clips_tail(b, p, seq![d])
            } else {
                None
            },
            None => None,
        }
    }
}

/// Parse a whole serialized project; the text must carry nothing after the
/// final brace, and the sample rate must fit its type.
pub open spec fn parse_project(b: Seq<u8>) -> Option<(u32, Seq<Seq<ClipInstance>>, Seq<Seq<i32>>)> {
    match parse_lit(b, 0, tok_head()) {
        None => None,
        Some(p1) => match parse_digits(b, p1) {
            None => None,
            Some((rate, p2)) => if rate <= u32::MAX {
                match parse_lit(b, p2, tok_timeline()) {
                    None => None,
                    Some(p3) => match parse_tracks(b, p3) {
                        None => None,
                        Some((tracks, p4)) => match parse_lit(b, p4, tok_store()) {
                            None => None,
                            Some(p5) => match parse_clips(b, p5) {
                                None => None,
                                Some((db, p6)) => match parse_lit(b, p6, tok_tail()) {
                                    None => None,
                                    Some(p7) => if p7 == b.len() {
                                        Some((rate as u32, tracks, db))
                                    } else {
                                        None
                                    },
                                },
                            },
                        },
                    },
                }
            } else {
                None
            },
        },
    }
}

/// Append the literal `{\"sample_rate\":`.
fn push_tok_head(out: &mut Vec<u8>)
    ensures
        final(out)@ == old(out)@ + tok_head(),
{
    out.push(123);
    out.push(34);
    out.push(115);
    out.push(97);
    out.push(109);
    out.push(112);
    out.push(108);
    out.push(101);
    out.push(95);
    out.push(114);
    out.push(97);
    out.push(116);
    out.push(101);
    out.push(34);
    out.push(58);
    proof {
        assert(out@ =~= old(out)@ + tok_head());
    }
}

/// Append the literal `,\"timeline\":{\"tracks\":[`.
fn push_tok_timeline(out: &mut Vec<u8>)
    ensures
        final(out)@ == old(out)@ + tok_timeline(),
{
    out.push(44);
    out.push(34);
    out.push(116);
    out.push(105);
    out.push(109);
    out.push(101);
    out.push(108);
    out.push(105);
    out.push(110);
    out.push(101);
    out.push(34);
    out.push(58);
    out.push(123);
    out.push(34);
    out.push(116);
    out.push(114);
    out.push(97);
    out.push(99);
    out.push(107);
    out.push(115);
    out.push(34);
    out.push(58);
    out.push(91);
    proof {
        assert(out@ =~= old(out)@ + tok_timeline());
    }
}

/// Append the literal `]},\"clip_database\":{\"clips\":[`.
fn push_tok_store(out: &mut Vec<u8>)
    ensures
        final(out)@ == old(out)@ + tok_store(),
{
    out.push(93);
    out.push(125);
    out.push(44);
    out.push(34);
    out.push(99);
    out.push(108);
    out.push(105);
    out.push(112);
    out.push(95);
    out.push(100);
    out.push(97);
    out.push(116);
    out.push(97);
    out.push(98);
    out.push(97);
    out.push(115);
    out.push(101);
    out.push(34);
    out.push(58);
    out.push(123);
    out.push(34);
    out.push(99);
    out.push(108);
    out.push(105);
    out.push(112);
    out.push(115);
    out.push(34);
    out.push(58);
    out.push(91);
    proof {
        assert(out@ =~= old(out)@ + tok_store());
    }
}

/// Append the literal `]}}`.
fn push_tok_tail(out: &mut Vec<u8>)
    ensures
        final(out)@ == old(out)@ + tok_tail(),
{
    out.push(93);
    out.push(125);
    out.push(125);
    proof {
        assert(out@ =~= old(out)@ + tok_tail());
    }
}

/// Append the literal `{\"clips\":[`.
fn push_tok_track_open(out: &mut Vec<u8>)
    ensures
        final(out)@ == old(out)@ + tok_track_open(),
{
    out.push(123);
    out.push(34);
    out.push(99);
    out.push(108);
    out.push(105);
    out.push(112);
    out.push(115);
    out.push(34);
    out.push(58);
    out.push(91);
    proof {
        assert(out@ =~= old(out)@ + tok_track_open());
    }
}

/// Append the literal `]}`.
fn push_tok_track_close(out: &mut Vec<u8>)
    ensures
        final(out)@ == old(out)@ + tok_track_close(),
{
    out.push(93);
    out.push(125);
    proof {
        assert(out@ =~= old(out)@ + tok_track_close());
    }
}

/// Append the literal `{\"time\":`.
fn push_tok_inst_open(out: &mut Vec<u8>)
    ensures
        final(out)@ == old(out)@ + tok_inst_open(),
{
    out.push(123);
    out.push(34);
    out.push(116);
    out.push(105);
    out.push(109);
    out.push(101);
    out.push(34);
    out.push(58);
    proof {
        assert(out@ =~= old(out)@ + tok_inst_open());
    }
}

/// Append the literal `,\"clip_id\":`.
fn push_tok_inst_mid(out: &mut Vec<u8>)
    ensures
        final(out)@ == old(out)@ + tok_inst_mid(),
{
    out.push(44);
    out.push(34);
    out.push(99);
    out.push(108);
    out.push(105);
    out.push(112);
    out.push(95);
    out.push(105);
    out.push(100);
    out.push(34);
    out.push(58);
    proof {
        assert(out@ =~= old(out)@ + tok_inst_mid());
    }
}

/// Append the literal `}`.
fn push_tok_inst_close(out: &mut Vec<u8>)
    ensures
        final(out)@ == old(out)@ + tok_inst_close(),
{
    out.push(125);
    proof {
        assert(out@ =~= old(out)@ + tok_inst_close());
    }
}

/// Append the literal `{\"data\":[`.
fn push_tok_clip_open(out: &mut Vec<u8>)
    ensures
        final(out)@ == old(out)@ + tok_clip_open(),
{
    out.push(123);
    out.push(34);
    out.push(100);
    out.push(97);
    out.push(116);
    out.push(97);
    out.push(34);
    out.push(58);
    out.push(91);
    proof {
        assert(out@ =~= old(out)@ + tok_clip_open());
    }
}

/// Append the literal `]}`.
fn push_tok_clip_close(out: &mut Vec<u8>)
    ensures
        final(out)@ == old(out)@ + tok_clip_close(),
{
    out.push(93);
    out.push(125);
    proof {
        assert(out@ =~= old(out)@ + tok_clip_close());
    }
}

/// Append the decimal digits of a number.
fn push_dec(out: &mut Vec<u8>, n: u64)
    ensures
        final(out)@ == old(out)@ + dec_digits(n as int),
    decreases n,
{
    if n < 10 {
        out.push(48 + n as u8);
        proof {
            assert(out@ =~= old(out)@ + dec_digits(n as int));
        }
    } else {
        push_dec(out, n / 10);
        out.push(48 + (n % 10) as u8);
        proof {
            assert(out@ =~= old(out)@ + dec_digits(n as int));
        }
    }
}

/// Append the decimal text of a sample value.
fn push_int(out: &mut Vec<u8>, v: i32)
    ensures
        final(out)@ == old(out)@ + int_bytes(v as int),
{
    if v < 0 {
        out.push(45);
        let m = -(v as i64);
        push_dec(out, m as u64);
        proof {
            assert(out@ =~= old(out)@ + int_bytes(v as int));
        }
    } else {
        push_dec(out, v as u64);
    }
}

/// Parse a non-negative number. The parsed value is returned exactly when
/// it fits 64 bits; larger values only report that they were too large.
fn parse_digits_exec(b: &Vec<u8>, pos: usize) -> (r: Option<(u64, usize, bool)>)
    ensures
        match r {
            Some((val, end, over)) => parse_digits(b@, pos as int) matches Some((v, p))
                && end as int == p && (over ==> v > 0xFFFF_FFFF_FFFF_FFFF) && (!over ==> val as int
                == v),
            None => parse_digits(b@, pos as int) is None,
        },
{
    proof {
        assert(b@.len() == b.len());
    }
    if pos >= b.len() || !(48 <= b[pos] && b[pos] <= 57) {
        return None;
    }
    let mut cur = pos;
    let mut value: u128 = 0;
    let ghost mut sv: int = 0;
    while cur < b.len() && 48 <= b[cur] && b[cur] <= 57
        invariant
            pos <= cur <= b@.len(),
            b@.len() == b.len(),
            digits_run(b@, pos as int, 0) == digits_run(b@, cur as int, sv),
            value <= 0xA_0000_0000_0000_0009,
            sv >= 0,
            value <= 0xFFFF_FFFF_FFFF_FFFF ==> value as int == sv,
            value > 0xFFFF_FFFF_FFFF_FFFF ==> sv > 0xFFFF_FFFF_FFFF_FFFF,
        decreases b@.len() - cur,
    {
        let d = b[cur] - 48;
        if value <= 0x1_0000_0000_0000_0000 {
            value = value * 10 + d as u128;
        }
        proof {
            sv = sv * 10 + d;
        }
        cur = cur + 1;
    }
    let over = value > 0xFFFF_FFFF_FFFF_FFFF;
    let val: u64 = if over {
        0
    } else {
        value as u64
    };
    Some((val, cur, over))
}

/// Append one serialized placement.
fn push_inst(out: &mut Vec<u8>, c: ClipInstance)
    ensures
        final(out)@ == old(out)@ + inst_bytes(c),
{
    push_tok_inst_open(out);
    push_dec(out, c.time as u64);
    push_tok_inst_mid(out);
    push_dec(out, c.clip_id.0 as u64);
    push_tok_inst_close(out);
    proof {
        assert(out@ =~= old(out)@ + inst_bytes(c));
    }
}

/// Append one serialized track.
fn push_track(out: &mut Vec<u8>, track: &Track)
    ensures
        final(out)@ == old(out)@ + track_bytes(track@),
{
    push_tok_track_open(out);
    let clips = track.iter_clips();
    let ghost base = out@;
    let mut j: usize = 0;
    while j < clips.len()
        invariant
            0 <= j <= clips@.len(),
            clips@ == track@,
            out@ == base + insts_bytes(track@, j as int),
        decreases clips@.len() - j,
    {
        if j > 0 {
            out.push(44);
        }
        push_inst(out, clips[j]);
        proof {
            assert(out@ =~= base + insts_bytes(track@, j + 1));
        }
        j = j + 1;
    }
    push_tok_track_close(out);
    proof {
        assert(out@ =~= old(out)@ + track_bytes(track@));
    }
}

/// Append one serialized clip.
fn push_clip(out: &mut Vec<u8>, clip: &Clip)
    ensures
        final(out)@ == old(out)@ + clip_bytes(clip@),
{
    push_tok_clip_open(out);
    let ghost base = out@;
    let mut j: usize = 0;
    while j < clip.data.len()
        invariant
            0 <= j <= clip@.len(),
            clip@ == clip.data@,
            out@ == base + samples_bytes(clip@, j as int),
        decreases clip@.len() - j,
    {
        if j > 0 {
            out.push(44);
        }
        push_int(out, clip.data[j]);
        proof {
            assert(out@ =~= base + samples_bytes(clip@, j + 1));
        }
        j = j + 1;
    }
    push_tok_clip_close(out);
    proof {
        assert(out@ =~= old(out)@ + clip_bytes(clip@));
    }
}

/// Parse one placement object.
fn parse_instance_exec(b: &Vec<u8>, pos: usize) -> (r: Option<(ClipInstance, usize)>)
    ensures
        match r {
            Some((c, p)) => parse_instance(b@, pos as int) == Some((c, p as int)),
            None => parse_instance(b@, pos as int) is None,
        },
{
    let p1 = match expect_tok_inst_open(b, pos) {
        Some(p) => p,
        None => {
            return None;
        },
    };
    let (time, p2) = match parse_digits_exec(b, p1) {
        Some((v, p, over)) => {
            if over || v > usize::MAX as u64 {
                return None;
            }
            (v as usize, p)
        },
        None => {
            return None;
        },
    };
    let p3 = match expect_tok_inst_mid(b, p2) {
        Some(p) => p,
        None => {
            return None;
        },
    };
    let (id, p4) = match parse_digits_exec(b, p3) {
        Some((v, p, over)) => {
            if over || v > usize::MAX as u64 {
                return None;
            }
            (v as usize, p)
        },
        None => {
            return None;
        },
    };
    let p5 = match expect_tok_inst_close(b, p4) {
        Some(p) => p,
        None => {
            return None;
        },
    };
    Some((ClipInstance { time, clip_id: ClipId(id) }, p5))
}

/// Parse a `]`-terminated placement list into a track.
fn parse_insts_exec(b: &Vec<u8>, pos: usize) -> (r: Option<(Vec<ClipInstance>, usize)>)
    ensures
        match r {
            Some((v, p)) => parse_insts(b@, pos as int) == Some((v@, p as int)),
            None => parse_insts(b@, pos as int) is None,
        },
{
    proof {
        assert(b@.len() == b.len());
    }
    let mut acc: Vec<ClipInstance> = Vec::new();
    if pos < b.len() && b[pos] == 93 {
        return Some((acc, pos));
    }
    let mut cur = match parse_instance_exec(b, pos) {
        Some((c, p)) => {
            if !(p > pos && p <= b.len()) {
                return None;
            }
            acc.push(c);
            p
        },
        None => {
            return None;
        },
    };
    loop
        invariant
            pos < cur <= b@.len(),
            b@.len() == b.len(),
            acc@.len() >= 1,
            parse_insts(b@, pos as int) == parse_insts_tail(b@, cur as int, acc@),
        decreases b@.len() - cur,
    {
        if cur < b.len() && b[cur] == 93 {
            return Some((acc, cur));
        }
        if !(cur < b.len() && b[cur] == 44) {
            return None;
        }
        match parse_instance_exec(b, cur + 1) {
            Some((c, p)) => {
                if !(p > cur && p <= b.len()) {
                    return None;
                }
                acc.push(c);
                cur = p;
            },
            None => {
                return None;
            },
        }
    }
}

/// Parse one serialized track.
fn parse_track_exec(b: &Vec<u8>, pos: usize) -> (r: Option<(Track, usize)>)
    ensures
        match r {
            Some((t, p)) => parse_track(b@, pos as int) == Some((t@, p as int)),
            None => parse_track(b@, pos as int) is None,
        },
{
    let p1 = match expect_tok_track_open(b, pos) {
        Some(p) => p,
        None => {
            return None;
        },
    };
    let (clips, p2) = match parse_insts_exec(b, p1) {
        Some(r) => r,
        None => {
            return None;
        },
    };
    let p3 = match expect_tok_track_close(b, p2) {
        Some(p) => p,
        None => {
            return None;
        },
    };
    let mut track = Track::new();
    let mut j: usize = 0;
    while j < clips.len()
        invariant
            0 <= j <= clips@.len(),
            track@ == clips@.take(j as int),
        decreases clips@.len() - j,
    {
        let c = clips[j];
        track.instantiate_clip(c.clip_id, c.time);
        proof {
            assert(track@ =~= clips@.take(j + 1));
        }
        j = j + 1;
    }
    proof {
        assert(track@ =~= clips@);
    }
    Some((track, p3))
}

/// Parse a `]`-terminated track list.
fn parse_tracks_exec(b: &Vec<u8>, pos: usize) -> (r: Option<(Vec<Track>, usize)>)
    ensures
        match r {
            Some((v, p)) => parse_tracks(b@, pos as int) == Some((tracks_view(v@), p as int)),
            None => parse_tracks(b@, pos as int) is None,
        },
{
    proof {
        assert(b@.len() == b.len());
    }
    let mut acc: Vec<Track> = Vec::new();
    if pos < b.len() && b[pos] == 93 {
        proof {
            assert(tracks_view(acc@) =~= Seq::<Seq<ClipInstance>>::empty());
        }
        return Some((acc, pos));
    }
    let mut cur = match parse_track_exec(b, pos) {
        Some((t, p)) => {
            if !(p > pos && p <= b.len()) {
                return None;
            }
            let ghost tv = t@;
            acc.push(t);
            proof {
                assert(tracks_view(acc@) =~= seq![tv]);
            }
            p
        },
        None => {
            return None;
        },
    };
    loop
        invariant
            pos < cur <= b@.len(),
            b@.len() == b.len(),
            acc@.len() >= 1,
            parse_tracks(b@, pos as int) == parse_tracks_tail(b@, cur as int, tracks_view(acc@)),
        decreases b@.len() - cur,
    {
        if cur < b.len() && b[cur] == 93 {
            return Some((acc, cur));
        }
        if !(cur < b.len() && b[cur] == 44) {
            return None;
        }
        match parse_track_exec(b, cur + 1) {
            Some((t, p)) => {
                if !(p > cur && p <= b.len()) {
                    return None;
                }
                let ghost pre = tracks_view(acc@);
                let ghost tv = t@;
                acc.push(t);
                proof {
                    assert(tracks_view(acc@) =~= pre.push(tv));
                }
                cur = p;
            },
            None => {
                return None;
            },
        }
    }
}

/// Parse a `]`-terminated sample list.
fn parse_samples_exec(b: &Vec<u8>, pos: usize) -> (r: Option<(Vec<i32>, usize)>)
    ensures
        match r {
            Some((v, p)) => parse_samples(b@, pos as int) == Some((v@, p as int)),
            None => parse_samples(b@, pos as int) is None,
        },
{
    proof {
        assert(b@.len() == b.len());
    }
    let mut acc: Vec<i32> = Vec::new();
    if pos < b.len() && b[pos] == 93 {
        return Some((acc, pos));
    }
    let mut cur = match parse_sample_exec(b, pos) {
        Some((v, p)) => {
            if !(p > pos && p <= b.len()) {
                return None;
            }
            acc.push(v);
            p
        },
        None => {
            return None;
        },
    };
    loop
        invariant
            pos < cur <= b@.len(),
            b@.len() == b.len(),
            acc@.len() >= 1,
            parse_samples(b@, pos as int) == parse_samples_tail(b@, cur as int, acc@),
        decreases b@.len() - cur,
    {
        if cur < b.len() && b[cur] == 93 {
            return Some((acc, cur));
        }
        if !(cur < b.len() && b[cur] == 44) {
            return None;
        }
        match parse_sample_exec(b, cur + 1) {
            Some((v, p)) => {
                if !(p > cur && p <= b.len()) {
                    return None;
                }
                acc.push(v);
                cur = p;
            },
            None => {
                return None;
            },
        }
    }
}

/// Parse one sample amplitude.
fn parse_sample_exec(b: &Vec<u8>, pos: usize) -> (r: Option<(i32, usize)>)
    ensures
        match r {
            Some((v, p)) => parse_sample(b@, pos as int) == Some((v, p as int)),
            None => parse_sample(b@, pos as int) is None,
        },
{
    proof {
        assert(b@.len() == b.len());
    }
    if pos < b.len() && b[pos] == 45 {
        match parse_digits_exec(b, pos + 1) {
            Some((v, p, over)) => {
                if over || v > 0x8000_0000 {
                    return None;
                }
                Some(((-(v as i64)) as i32, p))
            },
            None => None,
        }
    } else {
        match parse_digits_exec(b, pos) {
            Some((v, p, over)) => {
                if over || v > 0x7FFF_FFFF {
                    return None;
                }
                Some((v as i32, p))
            },
            None => None,
        }
    }
}

/// Parse one serialized clip.
fn parse_clip_exec(b: &Vec<u8>, pos: usize) -> (r: Option<(Clip, usize)>)
    ensures
        match r {
            Some((c, p)) => parse_clip(b@, pos as int) == Some((c@, p as int)),
            None => parse_clip(b@, pos as int) is None,
        },
{
    let p1 = match expect_tok_clip_open(b, pos) {
        Some(p) => p,
        None => {
            return None;
        },
    };
    let (data, p2) = match parse_samples_exec(b, p1) {
        Some(r) => r,
        None => {
            return None;
        },
    };
    let p3 = match expect_tok_clip_close(b, p2) {
        Some(p) => p,
        None => {
            return None;
        },
    };
    Some((Clip::new(data), p3))
}

/// Parse a `]`-terminated clip list.
fn parse_clips_exec(b: &Vec<u8>, pos: usize) -> (r: Option<(Vec<Clip>, usize)>)
    ensures
        match r {
            Some((v, p)) => parse_clips(b@, pos as int) == Some((clips_view(v@), p as int)),
            None => parse_clips(b@, pos as int) is None,
        },
{
    proof {
        assert(b@.len() == b.len());
    }
    let mut acc: Vec<Clip> = Vec::new();
    if pos < b.len() && b[pos] == 93 {
        proof {
            assert(clips_view(acc@) =~= Seq::<Seq<i32>>::empty());
        }
        return Some((acc, pos));
    }
    let mut cur = match parse_clip_exec(b, pos) {
        Some((c, p)) => {
            if !(p > pos && p <= b.len()) {
                return None;
            }
            let ghost cv = c@;
            acc.push(c);
            proof {
                assert(clips_view(acc@) =~= seq![cv]);
            }
            p
        },
        None => {
            return None;
        },
    };
    loop
        invariant
            pos < cur <= b@.len(),
            b@.len() == b.len(),
            acc@.len() >= 1,
            parse_clips(b@, pos as int) == parse_clips_tail(b@, cur as int, clips_view(acc@)),
        decreases b@.len() - cur,
    {
        if cur < b.len() && b[cur] == 93 {
            return Some((acc, cur));
        }
        if !(cur < b.len() && b[cur] == 44) {
            return None;
        }
        match parse_clip_exec(b, cur + 1) {
            Some((c, p)) => {
                if !(p > cur && p <= b.len()) {
                    return None;
                }
                let ghost pre = clips_view(acc@);
                let ghost cv = c@;
                acc.push(c);
                proof {
                    assert(clips_view(acc@) =~= pre.push(cv));
                }
                cur = p;
            },
            None => {
                return None;
            },
        }
    }
}

/// The track contents of a parsed track list.
pub open spec fn tracks_view(v: Seq<Track>) -> Seq<Seq<ClipInstance>> {
    Seq::new(v.len(), |i: int| v[i]@)
}

/// The clip contents of a parsed clip list.
pub open spec fn clips_view(v: Seq<Clip>) -> Seq<Seq<i32>> {
    Seq::new(v.len(), |i: int| v[i]@)
}

impl Project {
    /// Serialize this project's persistent state as its canonical text.
    pub fn save(&self) -> (r: Vec<u8>)
        ensures
            r@ == project_bytes(self.sample_rate as int, self.timeline@, self.clip_database@),
    {
        let mut out: Vec<u8> = Vec::new();
        push_tok_head(&mut out);
        push_dec(&mut out, self.sample_rate as u64);
        push_tok_timeline(&mut out);
        let ghost base = out@;
        let mut j: usize = 0;
        while j < self.timeline.tracks.len()
            invariant
                0 <= j <= self.timeline@.len(),
                out@ == base + tracks_bytes(self.timeline@, j as int),
            decreases self.timeline@.len() - j,
        {
            if j > 0 {
                out.push(44);
            }
            push_track(&mut out, &self.timeline.tracks[j]);
            proof {
                assert(out@ =~= base + tracks_bytes(self.timeline@, j + 1));
            }
            j = j + 1;
        }
        push_tok_store(&mut out);
        let ghost base2 = out@;
        let mut k: usize = 0;
        while k < self.clip_database.len()
            invariant
                0 <= k <= self.clip_database@.len(),
                out@ == base2 + clips_bytes(self.clip_database@, k as int),
            decreases self.clip_database@.len() - k,
        {
            if k > 0 {
                out.push(44);
            }
            match self.clip_database.get(ClipId(k)) {
                Some(clip) => {
                    push_clip(&mut out, clip);
                },
                None => {
                    proof {
                        assert(false);
                    }
                },
            }
            proof {
                assert(out@ =~= base2 + clips_bytes(self.clip_database@, k + 1));
            }
            k = k + 1;
        }
        push_tok_tail(&mut out);
        proof {
            assert(out@ =~= project_bytes(
                self.sample_rate as int,
                self.timeline@,
                self.clip_database@,
            ));
        }
        out
    }

    /// Rebuild a project from its serialized text. The result carries the
    /// stored sample rate, timeline and clip store, and a fresh default
    /// instrument at that rate; text that is not a canonical serialization
    /// is rejected with the position where reading stopped.
    pub fn load(data: &Vec<u8>) -> (r: Result<Project, ProjectError>)
        ensures
            match r {
                Ok(p) => parse_project(data@) == Some(
                    (p.sample_rate, p.timeline@, p.clip_database@),
                ) && p.generator == (SineGenerator {
                    sample_rate: p.sample_rate,
                    phase: 0,
                    note: 69,
                    on: false,
                }),
                Err(e) => parse_project(data@) is None && e matches
                    ProjectError::LoadProjectError { .. },
            },
    {
        proof {
            assert(data@.len() == data.len());
        }
        let p1 = match expect_tok_head(data, 0) {
            Some(p) => p,
            None => {
                return Err(error_at(data, 0));
            },
        };
        let (rate, p2) = match parse_digits_exec(data, p1) {
            Some((v, p, over)) => {
                if over || v > 0xFFFF_FFFF {
                    return Err(error_at(data, p1));
                }
                (v as u32, p)
            },
            None => {
                return Err(error_at(data, p1));
            },
        };
        let p3 = match expect_tok_timeline(data, p2) {
            Some(p) => p,
            None => {
                return Err(error_at(data, p2));
            },
        };
        let (tracks, p4) = match parse_tracks_exec(data, p3) {
            Some(r) => r,
            None => {
                return Err(error_at(data, p3));
            },
        };
        let p5 = match expect_tok_store(data, p4) {
            Some(p) => p,
            None => {
                return Err(error_at(data, p4));
            },
        };
        let (clips, p6) = match parse_clips_exec(data, p5) {
            Some(r) => r,
            None => {
                return Err(error_at(data, p5));
            },
        };
        let p7 = match expect_tok_tail(data, p6) {
            Some(p) => p,
            None => {
                return Err(error_at(data, p6));
            },
        };
        if p7 != data.len() {
            return Err(error_at(data, p7));
        }
        let mut database = ClipDatabase::new();
        let mut k: usize = 0;
        let ghost dbv = clips_view(clips@);
        while k < clips.len()
            invariant
                0 <= k <= clips@.len(),
                dbv == clips_view(clips@),
                database@ == dbv.take(k as int),
            decreases clips@.len() - k,
        {
            let ghost cv = clips@[k as int]@;
            database.add(Clip::new(clips[k].data.clone()));
            proof {
                assert(clips@[k as int].data@ == cv);
                assert(database@ =~= dbv.take(k + 1));
            }
            k = k + 1;
        }
        proof {
            assert(database@ =~= dbv);
        }
        Ok(
            Project {
                sample_rate: rate,
                timeline: Timeline { tracks },
                clip_database: database,
                generator: SineGenerator::new(rate),
            },
        )
    }
}

/// A load failure at a byte position, reported as a line and column.
fn error_at(data: &Vec<u8>, pos: usize) -> (r: ProjectError)
    ensures
        r matches ProjectError::LoadProjectError { .. },
{
    let mut line: usize = 1;
    let mut column: usize = 1;
    let mut i: usize = 0;
    let end = if pos < data.len() {
        pos
    } else {
        data.len()
    };
    while i < end
        invariant
            0 <= i <= end <= data@.len(),
            line >= 1,
        decreases end - i,
    {
        if data[i] == 10 {
            if line < usize::MAX {
                line = line + 1;
            }
            column = 1;
        } else {
            if column < usize::MAX {
                column = column + 1;
            }
        }
        i = i + 1;
    }
    ProjectError::LoadProjectError { line, column }
}

/// Expect the literal `{\"sample_rate\":`.
fn expect_tok_head(b: &Vec<u8>, pos: usize) -> (r: Option<usize>)
    ensures
        match r {
            Some(p) => parse_lit(b@, pos as int, tok_head()) == Some(p as int),
            None => parse_lit(b@, pos as int, tok_head()) is None,
        },
{
    proof {
        assert(b@.len() == b.len());
    }
    if b.len() < 15 || pos > b.len() - 15 {
        return None;
    }
    if b[pos + 0] != 123 {
        proof {
            assert(b@.subrange(pos as int, pos + 15) != tok_head()) by {
                assert(b@.subrange(pos as int, pos + 15)[0] != tok_head()[0]);
            }
        }
        return None;
    }
    if b[pos + 1] != 34 {
        proof {
            assert(b@.subrange(pos as int, pos + 15) != tok_head()) by {
                assert(b@.subrange(pos as int, pos + 15)[1] != tok_head()[1]);
            }
        }
        return None;
    }
    if b[pos + 2] != 115 {
        proof {
            assert(b@.subrange(pos as int, pos + 15) != tok_head()) by {
                assert(b@.subrange(pos as int, pos + 15)[2] != tok_head()[2]);
            }
        }
        return None;
    }
    if b[pos + 3] != 97 {
        proof {
            assert(b@.subrange(pos as int, pos + 15) != tok_head()) by {
                assert(b@.subrange(pos as int, pos + 15)[3] != tok_head()[3]);
            }
        }
        return None;
    }
    if b[pos + 4] != 109 {
        proof {
            assert(b@.subrange(pos as int, pos + 15) != tok_head()) by {
                assert(b@.subrange(pos as int, pos + 15)[4] != tok_head()[4]);
            }
        }
        return None;
    }
    if b[pos + 5] != 112 {
        proof {
            assert(b@.subrange(pos as int, pos + 15) != tok_head()) by {
                assert(b@.subrange(pos as int, pos + 15)[5] != tok_head()[5]);
            }
        }
        return None;
    }
    if b[pos + 6] != 108 {
        proof {
            assert(b@.subrange(pos as int, pos + 15) != tok_head()) by {
                assert(b@.subrange(pos as int, pos + 15)[6] != tok_head()[6]);
            }
        }
        return None;
    }
    if b[pos + 7] != 101 {
        proof {
            assert(b@.subrange(pos as int, pos + 15) != tok_head()) by {
                assert(b@.subrange(pos as int, pos + 15)[7] != tok_head()[7]);
            }
        }
        return None;
    }
    if b[pos + 8] != 95 {
        proof {
            assert(b@.subrange(pos as int, pos + 15) != tok_head()) by {
                assert(b@.subrange(pos as int, pos + 15)[8] != tok_head()[8]);
            }
        }
        return None;
    }
    if b[pos + 9] != 114 {
        proof {
            assert(b@.subrange(pos as int, pos + 15) != tok_head()) by {
                assert(b@.subrange(pos as int, pos + 15)[9] != tok_head()[9]);
            }
        }
        return None;
    }
    if b[pos + 10] != 97 {
        proof {
            assert(b@.subrange(pos as int, pos + 15) != tok_head()) by {
                assert(b@.subrange(pos as int, pos + 15)[10] != tok_head()[10]);
            }
        }
        return None;
    }
    if b[pos + 11] != 116 {
        proof {
            assert(b@.subrange(pos as int, pos + 15) != tok_head()) by {
                assert(b@.subrange(pos as int, pos + 15)[11] != tok_head()[11]);
            }
        }
        return None;
    }
    if b[pos + 12] != 101 {
        proof {
            assert(b@.subrange(pos as int, pos + 15) != tok_head()) by {
                assert(b@.subrange(pos as int, pos + 15)[12] != tok_head()[12]);
            }
        }
        return None;
    }
    if b[pos + 13] != 34 {
        proof {
            assert(b@.subrange(pos as int, pos + 15) != tok_head()) by {
                assert(b@.subrange(pos as int, pos + 15)[13] != tok_head()[13]);
            }
        }
        return None;
    }
    if b[pos + 14] != 58 {
        proof {
            assert(b@.subrange(pos as int, pos + 15) != tok_head()) by {
                assert(b@.subrange(pos as int, pos + 15)[14] != tok_head()[14]);
            }
        }
        return None;
    }
    proof {
        assert(b@.subrange(pos as int, pos + 15) =~= tok_head());
    }
    Some(pos + 15)
}

/// Expect the literal `,\"timeline\":{\"tracks\":[`.
fn expect_tok_timeline(b: &Vec<u8>, pos: usize) -> (r: Option<usize>)
    ensures
        match r {
            Some(p) => parse_lit(b@, pos as int, tok_timeline()) == Some(p as int),
            None => parse_lit(b@, pos as int, tok_timeline()) is None,
        },
{
    proof {
        assert(b@.len() == b.len());
    }
    if b.len() < 23 || pos > b.len() - 23 {
        return None;
    }
    if b[pos + 0] != 44 {
        proof {
            assert(b@.subrange(pos as int, pos + 23) != tok_timeline()) by {
                assert(b@.subrange(pos as int, pos + 23)[0] != tok_timeline()[0]);
            }
        }
        return None;
    }
    if b[pos + 1] != 34 {
        proof {
            assert(b@.subrange(pos as int, pos + 23) != tok_timeline()) by {
                assert(b@.subrange(pos as int, pos + 23)[1] != tok_timeline()[1]);
            }
        }
        return None;
    }
    if b[pos + 2] != 116 {
        proof {
            assert(b@.subrange(pos as int, pos + 23) != tok_timeline()) by {
                assert(b@.subrange(pos as int, pos + 23)[2] != tok_timeline()[2]);
            }
        }
        return None;
    }
    if b[pos + 3] != 105 {
        proof {
            assert(b@.subrange(pos as int, pos + 23) != tok_timeline()) by {
                assert(b@.subrange(pos as int, pos + 23)[3] != tok_timeline()[3]);
            }
        }
        return None;
    }
    if b[pos + 4] != 109 {
        proof {
            assert(b@.subrange(pos as int, pos + 23) != tok_timeline()) by {
                assert(b@.subrange(pos as int, pos + 23)[4] != tok_timeline()[4]);
            }
        }
        return None;
    }
    if b[pos + 5] != 101 {
        proof {
            assert(b@.subrange(pos as int, pos + 23) != tok_timeline()) by {
                assert(b@.subrange(pos as int, pos + 23)[5] != tok_timeline()[5]);
            }
        }
        return None;
    }
    if b[pos + 6] != 108 {
        proof {
            assert(b@.subrange(pos as int, pos + 23) != tok_timeline()) by {
                assert(b@.subrange(pos as int, pos + 23)[6] != tok_timeline()[6]);
            }
        }
        return None;
    }
    if b[pos + 7] != 105 {
        proof {
            assert(b@.subrange(pos as int, pos + 23) != tok_timeline()) by {
                assert(b@.subrange(pos as int, pos + 23)[7] != tok_timeline()[7]);
            }
        }
        return None;
    }
    if b[pos + 8] != 110 {
        proof {
            assert(b@.subrange(pos as int, pos + 23) != tok_timeline()) by {
                assert(b@.subrange(pos as int, pos + 23)[8] != tok_timeline()[8]);
            }
        }
        return None;
    }
    if b[pos + 9] != 101 {
        proof {
            assert(b@.subrange(pos as int, pos + 23) != tok_timeline()) by {
                assert(b@.subrange(pos as int, pos + 23)[9] != tok_timeline()[9]);
            }
        }
        return None;
    }
    if b[pos + 10] != 34 {
        proof {
            assert(b@.subrange(pos as int, pos + 23) != tok_timeline()) by {
                assert(b@.subrange(pos as int, pos + 23)[10] != tok_timeline()[10]);
            }
        }
        return None;
    }
    if b[pos + 11] != 58 {
        proof {
            assert(b@.subrange(pos as int, pos + 23) != tok_timeline()) by {
                assert(b@.subrange(pos as int, pos + 23)[11] != tok_timeline()[11]);
            }
        }
        return None;
    }
    if b[pos + 12] != 123 {
        proof {
            assert(b@.subrange(pos as int, pos + 23) != tok_timeline()) by {
                assert(b@.subrange(pos as int, pos + 23)[12] != tok_timeline()[12]);
            }
        }
        return None;
    }
    if b[pos + 13] != 34 {
        proof {
            assert(b@.subrange(pos as int, pos + 23) != tok_timeline()) by {
                assert(b@.subrange(pos as int, pos + 23)[13] != tok_timeline()[13]);
            }
        }
        return None;
    }
    if b[pos + 14] != 116 {
        proof {
            assert(b@.subrange(pos as int, pos + 23) != tok_timeline()) by {
                assert(b@.subrange(pos as int, pos + 23)[14] != tok_timeline()[14]);
            }
        }
        return None;
    }
    if b[pos + 15] != 114 {
        proof {
            assert(b@.subrange(pos as int, pos + 23) != tok_timeline()) by {
                assert(b@.subrange(pos as int, pos + 23)[15] != tok_timeline()[15]);
            }
        }
        return None;
    }
    if b[pos + 16] != 97 {
        proof {
            assert(b@.subrange(pos as int, pos + 23) != tok_timeline()) by {
                assert(b@.subrange(pos as int, pos + 23)[16] != tok_timeline()[16]);
            }
        }
        return None;
    }
    if b[pos + 17] != 99 {
        proof {
            assert(b@.subrange(pos as int, pos + 23) != tok_timeline()) by {
                assert(b@.subrange(pos as int, pos + 23)[17] != tok_timeline()[17]);
            }
        }
        return None;
    }
    if b[pos + 18] != 107 {
        proof {
            assert(b@.subrange(pos as int, pos + 23) != tok_timeline()) by {
                assert(b@.subrange(pos as int, pos + 23)[18] != tok_timeline()[18]);
            }
        }
        return None;
    }
    if b[pos + 19] != 115 {
        proof {
            assert(b@.subrange(pos as int, pos + 23) != tok_timeline()) by {
                assert(b@.subrange(pos as int, pos + 23)[19] != tok_timeline()[19]);
            }
        }
        return None;
    }
    if b[pos + 20] != 34 {
        proof {
            assert(b@.subrange(pos as int, pos + 23) != tok_timeline()) by {
                assert(b@.subrange(pos as int, pos + 23)[20] != tok_timeline()[20]);
            }
        }
        return None;
    }
    if b[pos + 21] != 58 {
        proof {
            assert(b@.subrange(pos as int, pos + 23) != tok_timeline()) by {
                assert(b@.subrange(pos as int, pos + 23)[21] != tok_timeline()[21]);
            }
        }
        return None;
    }
    if b[pos + 22] != 91 {
        proof {
            assert(b@.subrange(pos as int, pos + 23) != tok_timeline()) by {
                assert(b@.subrange(pos as int, pos + 23)[22] != tok_timeline()[22]);
            }
        }
        return None;
    }
    proof {
        assert(b@.subrange(pos as int, pos + 23) =~= tok_timeline());
    }
    Some(pos + 23)
}

/// Expect the literal `]},\"clip_database\":{\"clips\":[`.
fn expect_tok_store(b: &Vec<u8>, pos: usize) -> (r: Option<usize>)
    ensures
        match r {
            Some(p) => parse_lit(b@, pos as int, tok_store()) == Some(p as int),
            None => parse_lit(b@, pos as int, tok_store()) is None,
        },
{
    proof {
        assert(b@.len() == b.len());
    }
    if b.len() < 29 || pos > b.len() - 29 {
        return None;
    }
    if b[pos + 0] != 93 {
        proof {
            assert(b@.subrange(pos as int, pos + 29) != tok_store()) by {
                assert(b@.subrange(pos as int, pos + 29)[0] != tok_store()[0]);
            }
        }
        return None;
    }
    if b[pos + 1] != 125 {
        proof {
            assert(b@.subrange(pos as int, pos + 29) != tok_store()) by {
                assert(b@.subrange(pos as int, pos + 29)[1] != tok_store()[1]);
            }
        }
        return None;
    }
    if b[pos + 2] != 44 {
        proof {
            assert(b@.subrange(pos as int, pos + 29) != tok_store()) by {
                assert(b@.subrange(pos as int, pos + 29)[2] != tok_store()[2]);
            }
        }
        return None;
    }
    if b[pos + 3] != 34 {
        proof {
            assert(b@.subrange(pos as int, pos + 29) != tok_store()) by {
                assert(b@.subrange(pos as int, pos + 29)[3] != tok_store()[3]);
            }
        }
        return None;
    }
    if b[pos + 4] != 99 {
        proof {
            assert(b@.subrange(pos as int, pos + 29) != tok_store()) by {
                assert(b@.subrange(pos as int, pos + 29)[4] != tok_store()[4]);
            }
        }
        return None;
    }
    if b[pos + 5] != 108 {
        proof {
            assert(b@.subrange(pos as int, pos + 29) != tok_store()) by {
                assert(b@.subrange(pos as int, pos + 29)[5] != tok_store()[5]);
            }
        }
        return None;
    }
    if b[pos + 6] != 105 {
        proof {
            assert(b@.subrange(pos as int, pos + 29) != tok_store()) by {
                assert(b@.subrange(pos as int, pos + 29)[6] != tok_store()[6]);
            }
        }
        return None;
    }
    if b[pos + 7] != 112 {
        proof {
            assert(b@.subrange(pos as int, pos + 29) != tok_store()) by {
                assert(b@.subrange(pos as int, pos + 29)[7] != tok_store()[7]);
            }
        }
        return None;
    }
    if b[pos + 8] != 95 {
        proof {
            assert(b@.subrange(pos as int, pos + 29) != tok_store()) by {
                assert(b@.subrange(pos as int, pos + 29)[8] != tok_store()[8]);
            }
        }
        return None;
    }
    if b[pos + 9] != 100 {
        proof {
            assert(b@.subrange(pos as int, pos + 29) != tok_store()) by {
                assert(b@.subrange(pos as int, pos + 29)[9] != tok_store()[9]);
            }
        }
        return None;
    }
    if b[pos + 10] != 97 {
        proof {
            assert(b@.subrange(pos as int, pos + 29) != tok_store()) by {
                assert(b@.subrange(pos as int, pos + 29)[10] != tok_store()[10]);
            }
        }
        return None;
    }
    if b[pos + 11] != 116 {
        proof {
            assert(b@.subrange(pos as int, pos + 29) != tok_store()) by {
                assert(b@.subrange(pos as int, pos + 29)[11] != tok_store()[11]);
            }
        }
        return None;
    }
    if b[pos + 12] != 97 {
        proof {
            assert(b@.subrange(pos as int, pos + 29) != tok_store()) by {
                assert(b@.subrange(pos as int, pos + 29)[12] != tok_store()[12]);
            }
        }
        return None;
    }
    if b[pos + 13] != 98 {
        proof {
            assert(b@.subrange(pos as int, pos + 29) != tok_store()) by {
                assert(b@.subrange(pos as int, pos + 29)[13] != tok_store()[13]);
            }
        }
        return None;
    }
    if b[pos + 14] != 97 {
        proof {
            assert(b@.subrange(pos as int, pos + 29) != tok_store()) by {
                assert(b@.subrange(pos as int, pos + 29)[14] != tok_store()[14]);
            }
        }
        return None;
    }
    if b[pos + 15] != 115 {
        proof {
            assert(b@.subrange(pos as int, pos + 29) != tok_store()) by {
                assert(b@.subrange(pos as int, pos + 29)[15] != tok_store()[15]);
            }
        }
        return None;
    }
    if b[pos + 16] != 101 {
        proof {
            assert(b@.subrange(pos as int, pos + 29) != tok_store()) by {
                assert(b@.subrange(pos as int, pos + 29)[16] != tok_store()[16]);
            }
        }
        return None;
    }
    if b[pos + 17] != 34 {
        proof {
            assert(b@.subrange(pos as int, pos + 29) != tok_store()) by {
                assert(b@.subrange(pos as int, pos + 29)[17] != tok_store()[17]);
            }
        }
        return None;
    }
    if b[pos + 18] != 58 {
        proof {
            assert(b@.subrange(pos as int, pos + 29) != tok_store()) by {
                assert(b@.subrange(pos as int, pos + 29)[18] != tok_store()[18]);
            }
        }
        return None;
    }
    if b[pos + 19] != 123 {
        proof {
            assert(b@.subrange(pos as int, pos + 29) != tok_store()) by {
                assert(b@.subrange(pos as int, pos + 29)[19] != tok_store()[19]);
            }
        }
        return None;
    }
    if b[pos + 20] != 34 {
        proof {
            assert(b@.subrange(pos as int, pos + 29) != tok_store()) by {
                assert(b@.subrange(pos as int, pos + 29)[20] != tok_store()[20]);
            }
        }
        return None;
    }
    if b[pos + 21] != 99 {
        proof {
            assert(b@.subrange(pos as int, pos + 29) != tok_store()) by {
                assert(b@.subrange(pos as int, pos + 29)[21] != tok_store()[21]);
            }
        }
        return None;
    }
    if b[pos + 22] != 108 {
        proof {
            assert(b@.subrange(pos as int, pos + 29) != tok_store()) by {
                assert(b@.subrange(pos as int, pos + 29)[22] != tok_store()[22]);
            }
        }
        return None;
    }
    if b[pos + 23] != 105 {
        proof {
            assert(b@.subrange(pos as int, pos + 29) != tok_store()) by {
                assert(b@.subrange(pos as int, pos + 29)[23] != tok_store()[23]);
            }
        }
        return None;
    }
    if b[pos + 24] != 112 {
        proof {
            assert(b@.subrange(pos as int, pos + 29) != tok_store()) by {
                assert(b@.subrange(pos as int, pos + 29)[24] != tok_store()[24]);
            }
        }
        return None;
    }
    if b[pos + 25] != 115 {
        proof {
            assert(b@.subrange(pos as int, pos + 29) != tok_store()) by {
                assert(b@.subrange(pos as int, pos + 29)[25] != tok_store()[25]);
            }
        }
        return None;
    }
    if b[pos + 26] != 34 {
        proof {
            assert(b@.subrange(pos as int, pos + 29) != tok_store()) by {
                assert(b@.subrange(pos as int, pos + 29)[26] != tok_store()[26]);
            }
        }
        return None;
    }
    if b[pos + 27] != 58 {
        proof {
            assert(b@.subrange(pos as int, pos + 29) != tok_store()) by {
                assert(b@.subrange(pos as int, pos + 29)[27] != tok_store()[27]);
            }
        }
        return None;
    }
    if b[pos + 28] != 91 {
        proof {
            assert(b@.subrange(pos as int, pos + 29) != tok_store()) by {
                assert(b@.subrange(pos as int, pos + 29)[28] != tok_store()[28]);
            }
        }
        return None;
    }
    proof {
        assert(b@.subrange(pos as int, pos + 29) =~= tok_store());
    }
    Some(pos + 29)
}

/// Expect the literal `]}}`.
fn expect_tok_tail(b: &Vec<u8>, pos: usize) -> (r: Option<usize>)
    ensures
        match r {
            Some(p) => parse_lit(b@, pos as int, tok_tail()) == Some(p as int),
            None => parse_lit(b@, pos as int, tok_tail()) is None,
        },
{
    proof {
        assert(b@.len() == b.len());
    }
    if b.len() < 3 || pos > b.len() - 3 {
        return None;
    }
    if b[pos + 0] != 93 {
        proof {
            assert(b@.subrange(pos as int, pos + 3) != tok_tail()) by {
                assert(b@.subrange(pos as int, pos + 3)[0] != tok_tail()[0]);
            }
        }
        return None;
    }
    if b[pos + 1] != 125 {
        proof {
            assert(b@.subrange(pos as int, pos + 3) != tok_tail()) by {
                assert(b@.subrange(pos as int, pos + 3)[1] != tok_tail()[1]);
            }
        }
        return None;
    }
    if b[pos + 2] != 125 {
        proof {
            assert(b@.subrange(pos as int, pos + 3) != tok_tail()) by {
                assert(b@.subrange(pos as int, pos + 3)[2] != tok_tail()[2]);
            }
        }
        return None;
    }
    proof {
        assert(b@.subrange(pos as int, pos + 3) =~= tok_tail());
    }
    Some(pos + 3)
}

/// Expect the literal `{\"clips\":[`.
fn expect_tok_track_open(b: &Vec<u8>, pos: usize) -> (r: Option<usize>)
    ensures
        match r {
            Some(p) => parse_lit(b@, pos as int, tok_track_open()) == Some(p as int),
            None => parse_lit(b@, pos as int, tok_track_open()) is None,
        },
{
    proof {
        assert(b@.len() == b.len());
    }
    if b.len() < 10 || pos > b.len() - 10 {
        return None;
    }
    if b[pos + 0] != 123 {
        proof {
            assert(b@.subrange(pos as int, pos + 10) != tok_track_open()) by {
                assert(b@.subrange(pos as int, pos + 10)[0] != tok_track_open()[0]);
            }
        }
        return None;
    }
    if b[pos + 1] != 34 {
        proof {
            assert(b@.subrange(pos as int, pos + 10) != tok_track_open()) by {
                assert(b@.subrange(pos as int, pos + 10)[1] != tok_track_open()[1]);
            }
        }
        return None;
    }
    if b[pos + 2] != 99 {
        proof {
            assert(b@.subrange(pos as int, pos + 10) != tok_track_open()) by {
                assert(b@.subrange(pos as int, pos + 10)[2] != tok_track_open()[2]);
            }
        }
        return None;
    }
    if b[pos + 3] != 108 {
        proof {
            assert(b@.subrange(pos as int, pos + 10) != tok_track_open()) by {
                assert(b@.subrange(pos as int, pos + 10)[3] != tok_track_open()[3]);
            }
        }
        return None;
    }
    if b[pos + 4] != 105 {
        proof {
            assert(b@.subrange(pos as int, pos + 10) != tok_track_open()) by {
                assert(b@.subrange(pos as int, pos + 10)[4] != tok_track_open()[4]);
            }
        }
        return None;
    }
    if b[pos + 5] != 112 {
        proof {
            assert(b@.subrange(pos as int, pos + 10) != tok_track_open()) by {
                assert(b@.subrange(pos as int, pos + 10)[5] != tok_track_open()[5]);
            }
        }
        return None;
    }
    if b[pos + 6] != 115 {
        proof {
            assert(b@.subrange(pos as int, pos + 10) != tok_track_open()) by {
                assert(b@.subrange(pos as int, pos + 10)[6] != tok_track_open()[6]);
            }
        }
        return None;
    }
    if b[pos + 7] != 34 {
        proof {
            assert(b@.subrange(pos as int, pos + 10) != tok_track_open()) by {
                assert(b@.subrange(pos as int, pos + 10)[7] != tok_track_open()[7]);
            }
        }
        return None;
    }
    if b[pos + 8] != 58 {
        proof {
            assert(b@.subrange(pos as int, pos + 10) != tok_track_open()) by {
                assert(b@.subrange(pos as int, pos + 10)[8] != tok_track_open()[8]);
            }
        }
        return None;
    }
    if b[pos + 9] != 91 {
        proof {
            assert(b@.subrange(pos as int, pos + 10) != tok_track_open()) by {
                assert(b@.subrange(pos as int, pos + 10)[9] != tok_track_open()[9]);
            }
        }
        return None;
    }
    proof {
        assert(b@.subrange(pos as int, pos + 10) =~= tok_track_open());
    }
    Some(pos + 10)
}

/// Expect the literal `]}`.
fn expect_tok_track_close(b: &Vec<u8>, pos: usize) -> (r: Option<usize>)
    ensures
        match r {
            Some(p) => parse_lit(b@, pos as int, tok_track_close()) == Some(p as int),
            None => parse_lit(b@, pos as int, tok_track_close()) is None,
        },
{
    proof {
        assert(b@.len() == b.len());
    }
    if b.len() < 2 || pos > b.len() - 2 {
        return None;
    }
    if b[pos + 0] != 93 {
        proof {
            assert(b@.subrange(pos as int, pos + 2) != tok_track_close()) by {
                assert(b@.subrange(pos as int, pos + 2)[0] != tok_track_close()[0]);
            }
        }
        return None;
    }
    if b[pos + 1] != 125 {
        proof {
            assert(b@.subrange(pos as int, pos + 2) != tok_track_close()) by {
                assert(b@.subrange(pos as int, pos + 2)[1] != tok_track_close()[1]);
            }
        }
        return None;
    }
    proof {
        assert(b@.subrange(pos as int, pos + 2) =~= tok_track_close());
    }
    Some(pos + 2)
}

/// Expect the literal `{\"time\":`.
fn expect_tok_inst_open(b: &Vec<u8>, pos: usize) -> (r: Option<usize>)
    ensures
        match r {
            Some(p) => parse_lit(b@, pos as int, tok_inst_open()) == Some(p as int),
            None => parse_lit(b@, pos as int, tok_inst_open()) is None,
        },
{
    proof {
        assert(b@.len() == b.len());
    }
    if b.len() < 8 || pos > b.len() - 8 {
        return None;
    }
    if b[pos + 0] != 123 {
        proof {
            assert(b@.subrange(pos as int, pos + 8) != tok_inst_open()) by {
                assert(b@.subrange(pos as int, pos + 8)[0] != tok_inst_open()[0]);
            }
        }
        return None;
    }
    if b[pos + 1] != 34 {
        proof {
            assert(b@.subrange(pos as int, pos + 8) != tok_inst_open()) by {
                assert(b@.subrange(pos as int, pos + 8)[1] != tok_inst_open()[1]);
            }
        }
        return None;
    }
    if b[pos + 2] != 116 {
        proof {
            assert(b@.subrange(pos as int, pos + 8) != tok_inst_open()) by {
                assert(b@.subrange(pos as int, pos + 8)[2] != tok_inst_open()[2]);
            }
        }
        return None;
    }
    if b[pos + 3] != 105 {
        proof {
            assert(b@.subrange(pos as int, pos + 8) != tok_inst_open()) by {
                assert(b@.subrange(pos as int, pos + 8)[3] != tok_inst_open()[3]);
            }
        }
        return None;
    }
    if b[pos + 4] != 109 {
        proof {
            assert(b@.subrange(pos as int, pos + 8) != tok_inst_open()) by {
                assert(b@.subrange(pos as int, pos + 8)[4] != tok_inst_open()[4]);
            }
        }
        return None;
    }
    if b[pos + 5] != 101 {
        proof {
            assert(b@.subrange(pos as int, pos + 8) != tok_inst_open()) by {
                assert(b@.subrange(pos as int, pos + 8)[5] != tok_inst_open()[5]);
            }
        }
        return None;
    }
    if b[pos + 6] != 34 {
        proof {
            assert(b@.subrange(pos as int, pos + 8) != tok_inst_open()) by {
                assert(b@.subrange(pos as int, pos + 8)[6] != tok_inst_open()[6]);
            }
        }
        return None;
    }
    if b[pos + 7] != 58 {
        proof {
            assert(b@.subrange(pos as int, pos + 8) != tok_inst_open()) by {
                assert(b@.subrange(pos as int, pos + 8)[7] != tok_inst_open()[7]);
            }
        }
        return None;
    }
    proof {
        assert(b@.subrange(pos as int, pos + 8) =~= tok_inst_open());
    }
    Some(pos + 8)
}

/// Expect the literal `,\"clip_id\":`.
fn expect_tok_inst_mid(b: &Vec<u8>, pos: usize) -> (r: Option<usize>)
    ensures
        match r {
            Some(p) => parse_lit(b@, pos as int, tok_inst_mid()) == Some(p as int),
            None => parse_lit(b@, pos as int, tok_inst_mid()) is None,
        },
{
    proof {
        assert(b@.len() == b.len());
    }
    if b.len() < 11 || pos > b.len() - 11 {
        return None;
    }
    if b[pos + 0] != 44 {
        proof {
            assert(b@.subrange(pos as int, pos + 11) != tok_inst_mid()) by {
                assert(b@.subrange(pos as int, pos + 11)[0] != tok_inst_mid()[0]);
            }
        }
        return None;
    }
    if b[pos + 1] != 34 {
        proof {
            assert(b@.subrange(pos as int, pos + 11) != tok_inst_mid()) by {
                assert(b@.subrange(pos as int, pos + 11)[1] != tok_inst_mid()[1]);
            }
        }
        return None;
    }
    if b[pos + 2] != 99 {
        proof {
            assert(b@.subrange(pos as int, pos + 11) != tok_inst_mid()) by {
                assert(b@.subrange(pos as int, pos + 11)[2] != tok_inst_mid()[2]);
            }
        }
        return None;
    }
    if b[pos + 3] != 108 {
        proof {
            assert(b@.subrange(pos as int, pos + 11) != tok_inst_mid()) by {
                assert(b@.subrange(pos as int, pos + 11)[3] != tok_inst_mid()[3]);
            }
        }
        return None;
    }
    if b[pos + 4] != 105 {
        proof {
            assert(b@.subrange(pos as int, pos + 11) != tok_inst_mid()) by {
                assert(b@.subrange(pos as int, pos + 11)[4] != tok_inst_mid()[4]);
            }
        }
        return None;
    }
    if b[pos + 5] != 112 {
        proof {
            assert(b@.subrange(pos as int, pos + 11) != tok_inst_mid()) by {
                assert(b@.subrange(pos as int, pos + 11)[5] != tok_inst_mid()[5]);
            }
        }
        return None;
    }
    if b[pos + 6] != 95 {
        proof {
            assert(b@.subrange(pos as int, pos + 11) != tok_inst_mid()) by {
                assert(b@.subrange(pos as int, pos + 11)[6] != tok_inst_mid()[6]);
            }
        }
        return None;
    }
    if b[pos + 7] != 105 {
        proof {
            assert(b@.subrange(pos as int, pos + 11) != tok_inst_mid()) by {
                assert(b@.subrange(pos as int, pos + 11)[7] != tok_inst_mid()[7]);
            }
        }
        return None;
    }
    if b[pos + 8] != 100 {
        proof {
            assert(b@.subrange(pos as int, pos + 11) != tok_inst_mid()) by {
                assert(b@.subrange(pos as int, pos + 11)[8] != tok_inst_mid()[8]);
            }
        }
        return None;
    }
    if b[pos + 9] != 34 {
        proof {
            assert(b@.subrange(pos as int, pos + 11) != tok_inst_mid()) by {
                assert(b@.subrange(pos as int, pos + 11)[9] != tok_inst_mid()[9]);
            }
        }
        return None;
    }
    if b[pos + 10] != 58 {
        proof {
            assert(b@.subrange(pos as int, pos + 11) != tok_inst_mid()) by {
                assert(b@.subrange(pos as int, pos + 11)[10] != tok_inst_mid()[10]);
            }
        }
        return None;
    }
    proof {
        assert(b@.subrange(pos as int, pos + 11) =~= tok_inst_mid());
    }
    Some(pos + 11)
}

/// Expect the literal `}`.
fn expect_tok_inst_close(b: &Vec<u8>, pos: usize) -> (r: Option<usize>)
    ensures
        match r {
            Some(p) => parse_lit(b@, pos as int, tok_inst_close()) == Some(p as int),
            None => parse_lit(b@, pos as int, tok_inst_close()) is None,
        },
{
    proof {
        assert(b@.len() == b.len());
    }
    if b.len() < 1 || pos > b.len() - 1 {
        return None;
    }
    if b[pos + 0] != 125 {
        proof {
            assert(b@.subrange(pos as int, pos + 1) != tok_inst_close()) by {
                assert(b@.subrange(pos as int, pos + 1)[0] != tok_inst_close()[0]);
            }
        }
        return None;
    }
    proof {
        assert(b@.subrange(pos as int, pos + 1) =~= tok_inst_close());
    }
    Some(pos + 1)
}

/// Expect the literal `{\"data\":[`.
fn expect_tok_clip_open(b: &Vec<u8>, pos: usize) -> (r: Option<usize>)
    ensures
        match r {
            Some(p) => parse_lit(b@, pos as int, tok_clip_open()) == Some(p as int),
            None => parse_lit(b@, pos as int, tok_clip_open()) is None,
        },
{
    proof {
        assert(b@.len() == b.len());
    }
    if b.len() < 9 || pos > b.len() - 9 {
        return None;
    }
    if b[pos + 0] != 123 {
        proof {
            assert(b@.subrange(pos as int, pos + 9) != tok_clip_open()) by {
                assert(b@.subrange(pos as int, pos + 9)[0] != tok_clip_open()[0]);
            }
        }
        return None;
    }
    if b[pos + 1] != 34 {
        proof {
            assert(b@.subrange(pos as int, pos + 9) != tok_clip_open()) by {
                assert(b@.subrange(pos as int, pos + 9)[1] != tok_clip_open()[1]);
            }
        }
        return None;
    }
    if b[pos + 2] != 100 {
        proof {
            assert(b@.subrange(pos as int, pos + 9) != tok_clip_open()) by {
                assert(b@.subrange(pos as int, pos + 9)[2] != tok_clip_open()[2]);
            }
        }
        return None;
    }
    if b[pos + 3] != 97 {
        proof {
            assert(b@.subrange(pos as int, pos + 9) != tok_clip_open()) by {
                assert(b@.subrange(pos as int, pos + 9)[3] != tok_clip_open()[3]);
            }
        }
        return None;
    }
    if b[pos + 4] != 116 {
        proof {
            assert(b@.subrange(pos as int, pos + 9) != tok_clip_open()) by {
                assert(b@.subrange(pos as int, pos + 9)[4] != tok_clip_open()[4]);
            }
        }
        return None;
    }
    if b[pos + 5] != 97 {
        proof {
            assert(b@.subrange(pos as int, pos + 9) != tok_clip_open()) by {
                assert(b@.subrange(pos as int, pos + 9)[5] != tok_clip_open()[5]);
            }
        }
        return None;
    }
    if b[pos + 6] != 34 {
        proof {
            assert(b@.subrange(pos as int, pos + 9) != tok_clip_open()) by {
                assert(b@.subrange(pos as int, pos + 9)[6] != tok_clip_open()[6]);
            }
        }
        return None;
    }
    if b[pos + 7] != 58 {
        proof {
            assert(b@.subrange(pos as int, pos + 9) != tok_clip_open()) by {
                assert(b@.subrange(pos as int, pos + 9)[7] != tok_clip_open()[7]);
            }
        }
        return None;
    }
    if b[pos + 8] != 91 {
        proof {
            assert(b@.subrange(pos as int, pos + 9) != tok_clip_open()) by {
                assert(b@.subrange(pos as int, pos + 9)[8] != tok_clip_open()[8]);
            }
        }
        return None;
    }
    proof {
        assert(b@.subrange(pos as int, pos + 9) =~= tok_clip_open());
    }
    Some(pos + 9)
}

/// Expect the literal `]}`.
fn expect_tok_clip_close(b: &Vec<u8>, pos: usize) -> (r: Option<usize>)
    ensures
        match r {
            Some(p) => parse_lit(b@, pos as int, tok_clip_close()) == Some(p as int),
            None => parse_lit(b@, pos as int, tok_clip_close()) is None,
        },
{
    proof {
        assert(b@.len() == b.len());
    }
    if b.len() < 2 || pos > b.len() - 2 {
        return None;
    }
    if b[pos + 0] != 93 {
        proof {
            assert(b@.subrange(pos as int, pos + 2) != tok_clip_close()) by {
                assert(b@.subrange(pos as int, pos + 2)[0] != tok_clip_close()[0]);
            }
        }
        return None;
    }
    if b[pos + 1] != 125 {
        proof {
            assert(b@.subrange(pos as int, pos + 2) != tok_clip_close()) by {
                assert(b@.subrange(pos as int, pos + 2)[1] != tok_clip_close()[1]);
            }
        }
        return None;
    }
    proof {
        assert(b@.subrange(pos as int, pos + 2) =~= tok_clip_close());
    }
    Some(pos + 2)
}


/// `10^e` for non-negative exponents.
pub open spec fn pow10(e: int) -> int
    decreases e,
{
    if e <= 0 {
        1
    } else {
        10 * pow10(e - 1)
    }
}

/// The numeric value of a digit string.
pub open spec fn seqval(s: Seq<u8>) -> int
    decreases s.len(),
{
    if s.len() == 0 {
        0
    } else {
        seqval(s.drop_last()) * 10 + (s.last() - 48)
    }
}

/// Whether every byte of a string is a decimal digit.
pub open spec fn all_digits(s: Seq<u8>) -> bool {
    forall|i: int| 0 <= i < s.len() ==> is_digit(#[trigger] s[i])
}

/// The decimal text of a number is all digits, is non-empty, and reads
/// back as the number.
proof fn lemma_dec_digits_props(n: int)
    requires
        n >= 0,
    ensures
        all_digits(dec_digits(n)),
        seqval(dec_digits(n)) == n,
        dec_digits(n).len() >= 1,
    decreases n,
{
    if n < 10 {
        assert(dec_digits(n) =~= seq![(48 + n) as u8]);
        assert(dec_digits(n).drop_last() =~= Seq::<u8>::empty());
        assert(((48 + n) as u8) as int == 48 + n);
        assert(seqval(Seq::<u8>::empty()) == 0);
        assert(seqval(dec_digits(n)) == seqval(dec_digits(n).drop_last()) * 10 + (dec_digits(
            n,
        ).last() - 48));
    } else {
        lemma_dec_digits_props(n / 10);
        let d = dec_digits(n);
        assert(d.drop_last() =~= dec_digits(n / 10));
        assert(((48 + n % 10) as u8) as int == 48 + n % 10);
        assert(d.last() == (48 + n % 10) as u8);
        assert(seqval(d) == (n / 10) * 10 + n % 10);
        vstd::arithmetic::div_mod::lemma_fundamental_div_mod(n, 10);
        assert((n / 10) * 10 + n % 10 == n) by (nonlinear_arith)
            requires
                n == 10 * (n / 10) + n % 10,
        ;
    }
}

/// A digit string's value, decomposed at its first digit.
proof fn lemma_seqval_head(s: Seq<u8>)
    requires
        s.len() >= 1,
    ensures
        seqval(s) == (s[0] - 48) * pow10(s.len() - 1) + seqval(s.drop_first()),
    decreases s.len(),
{
    if s.len() == 1 {
        assert(s.drop_last() =~= Seq::<u8>::empty());
        assert(s.drop_first() =~= Seq::<u8>::empty());
    } else {
        lemma_seqval_head(s.drop_last());
        assert(s.drop_last().drop_first() =~= s.drop_first().drop_last());
        assert(s.drop_first().last() == s.last());
        assert(s.drop_last()[0] == s[0]);
        let p = pow10(s.len() - 2);
        let h = (s[0] - 48) as int;
        assert(seqval(s) == (h * p + seqval(s.drop_first().drop_last())) * 10 + (s.last() - 48));
        assert((h * p + seqval(s.drop_first().drop_last())) * 10 == h * (10 * p) + seqval(
            s.drop_first().drop_last(),
        ) * 10) by (nonlinear_arith);
        assert(pow10(s.len() - 1) == 10 * p);
    }
}

/// Running the digit scanner over a known digit region folds its value
/// onto the accumulator.
proof fn lemma_digits_run_region(b: Seq<u8>, pos: int, mid: int, acc: int)
    requires
        0 <= pos <= mid <= b.len(),
        forall|i: int| pos <= i < mid ==> is_digit(#[trigger] b[i]),
        mid == b.len() || !is_digit(b[mid]),
    ensures
        digits_run(b, pos, acc) == (acc * pow10(mid - pos) + seqval(b.subrange(pos, mid)), mid),
    decreases mid - pos,
{
    if pos == mid {
        assert(b.subrange(pos, mid) =~= Seq::<u8>::empty());
        assert(acc * pow10(0) == acc) by (nonlinear_arith);
    } else {
        let d = (b[pos] - 48) as int;
        lemma_digits_run_region(b, pos + 1, mid, acc * 10 + d);
        let s = b.subrange(pos, mid);
        lemma_seqval_head(s);
        assert(s.drop_first() =~= b.subrange(pos + 1, mid));
        let p = pow10(mid - pos - 1);
        assert((acc * 10 + d) * p == acc * (10 * p) + d * p) by (nonlinear_arith);
        assert(pow10(mid - pos) == 10 * p);
        assert(digits_run(b, pos, acc) == digits_run(b, pos + 1, acc * 10 + d));
    }
}

/// Parsing at the start of a number's decimal text yields the number and
/// stops at its end, provided no digit follows it.
proof fn lemma_parse_digits_at(b: Seq<u8>, pos: int, n: int)
    requires
        n >= 0,
        0 <= pos,
        pos + dec_digits(n).len() <= b.len(),
        b.subrange(pos, pos + dec_digits(n).len() as int) == dec_digits(n),
        pos + dec_digits(n).len() == b.len() || !is_digit(b[pos + dec_digits(n).len()]),
    ensures
        parse_digits(b, pos) == Some((n, pos + dec_digits(n).len() as int)),
{
    lemma_dec_digits_props(n);
    let l = dec_digits(n).len() as int;
    assert forall|i: int| pos <= i < pos + l implies is_digit(#[trigger] b[i]) by {
        assert(b[i] == dec_digits(n)[i - pos]);
    }
    assert(is_digit(b[pos])) by {
        assert(b[pos] == dec_digits(n)[0]);
    }
    lemma_digits_run_region(b, pos, pos + l, 0);
    assert(b.subrange(pos, pos + l) == dec_digits(n));
    assert(0 * pow10(l) == 0) by (nonlinear_arith);
}



/// A region matching a concatenation splits at the concatenation point.
pub proof fn lemma_subrange_split(b: Seq<u8>, pos: int, u: Seq<u8>, v: Seq<u8>)
    requires
        0 <= pos,
        pos + u.len() + v.len() <= b.len(),
        b.subrange(pos, pos + u.len() + v.len()) == u + v,
    ensures
        b.subrange(pos, pos + u.len() as int) == u,
        b.subrange(pos + u.len() as int, pos + u.len() + v.len()) == v,
{
    assert forall|i: int| 0 <= i < u.len() + v.len() implies b[pos + i] == (u + v)[i] by {
        assert(b.subrange(pos, pos + u.len() + v.len())[i] == (u + v)[i]);
    }
    assert(b.subrange(pos, pos + u.len() as int) =~= u);
    assert forall|i: int|
        0 <= i < v.len() implies b.subrange(pos + u.len() as int, pos + u.len() + v.len())[i]
        == v[i] by {
        assert(b[pos + u.len() + i] == (u + v)[u.len() + i]);
    }
    assert(b.subrange(pos + u.len() as int, pos + u.len() + v.len()) =~= v);
}

/// The first byte of a placement's serialization.
proof fn lemma_inst_bytes_first(c: ClipInstance)
    ensures
        inst_bytes(c).len() >= 9,
        inst_bytes(c)[0] == 123,
{
    assert(inst_bytes(c)[0] == tok_inst_open()[0]);
}

/// Parsing at the start of a placement's serialization yields the
/// placement and stops at its end.
proof fn lemma_parse_instance_at(b: Seq<u8>, pos: int, c: ClipInstance)
    requires
        0 <= pos,
        pos + inst_bytes(c).len() <= b.len(),
        b.subrange(pos, pos + inst_bytes(c).len() as int) == inst_bytes(c),
    ensures
        parse_instance(b, pos) == Some((c, pos + inst_bytes(c).len() as int)),
{
    let w = inst_bytes(c);
    let d1 = dec_digits(c.time as int);
    let d2 = dec_digits(c.clip_id@);
    lemma_dec_digits_props(c.time as int);
    lemma_dec_digits_props(c.clip_id@);
    let l1 = d1.len() as int;
    let l2 = d2.len() as int;
    let p1 = pos + 8;
    let p2 = p1 + l1;
    let p3 = p2 + 11;
    let p4 = p3 + l2;
    let p5 = p4 + 1;
    assert(w.len() == 20 + l1 + l2);
    assert(w =~= (((tok_inst_open() + d1) + tok_inst_mid()) + d2) + tok_inst_close());
    lemma_subrange_split(b, pos, ((tok_inst_open() + d1) + tok_inst_mid()) + d2, tok_inst_close());
    lemma_subrange_split(b, pos, (tok_inst_open() + d1) + tok_inst_mid(), d2);
    lemma_subrange_split(b, pos, tok_inst_open() + d1, tok_inst_mid());
    lemma_subrange_split(b, pos, tok_inst_open(), d1);
    assert(parse_lit(b, pos, tok_inst_open()) == Some(p1));
    assert(b[p2] == 44 && !is_digit(b[p2])) by {
        assert(b.subrange(p2, p3)[0] == tok_inst_mid()[0]);
    }
    lemma_parse_digits_at(b, p1, c.time as int);
    assert(parse_lit(b, p2, tok_inst_mid()) == Some(p3));
    assert(b[p4] == 125 && !is_digit(b[p4])) by {
        assert(b.subrange(p4, p5)[0] == tok_inst_close()[0]);
    }
    lemma_parse_digits_at(b, p3, c.clip_id@);
    assert(parse_lit(b, p4, tok_inst_close()) == Some(p5));
    assert(ClipInstance { time: (c.time as int) as usize, clip_id: ClipId(c.clip_id@ as usize) }
        == c);
}

/// The serialized placements from index `k` on, each preceded by a comma.
spec fn insts_tail_bytes(clips: Seq<ClipInstance>, k: int, n: int) -> Seq<u8>
    decreases n - k,
{
    if k >= n {
        Seq::empty()
    } else {
        seq![44u8] + inst_bytes(clips[k]) + insts_tail_bytes(clips, k + 1, n)
    }
}

/// Extending a comma-separated region by one more element.
proof fn lemma_insts_tail_snoc(clips: Seq<ClipInstance>, k: int, n: int)
    requires
        0 <= k <= n - 1,
    ensures
        insts_tail_bytes(clips, k, n) == insts_tail_bytes(clips, k, n - 1) + seq![44u8]
            + inst_bytes(clips[n - 1]),
    decreases n - k,
{
    if k == n - 1 {
        assert(insts_tail_bytes(clips, k + 1, n) =~= Seq::<u8>::empty());
        assert(insts_tail_bytes(clips, k, n - 1) =~= Seq::<u8>::empty());
        assert(insts_tail_bytes(clips, k, n) =~= insts_tail_bytes(clips, k, n - 1) + seq![44u8]
            + inst_bytes(clips[n - 1]));
    } else {
        lemma_insts_tail_snoc(clips, k + 1, n);
        assert(insts_tail_bytes(clips, k, n) =~= insts_tail_bytes(clips, k, n - 1) + seq![44u8]
            + inst_bytes(clips[n - 1]));
    }
}

/// A full placement list splits into its first element and the rest.
proof fn lemma_insts_split(clips: Seq<ClipInstance>, n: int)
    requires
        1 <= n <= clips.len(),
    ensures
        insts_bytes(clips, n) == inst_bytes(clips[0]) + insts_tail_bytes(clips, 1, n),
    decreases n,
{
    if n == 1 {
        assert(insts_tail_bytes(clips, 1, 1) =~= Seq::<u8>::empty());
        assert(insts_bytes(clips, 1) =~= inst_bytes(clips[0]) + insts_tail_bytes(clips, 1, 1));
    } else {
        lemma_insts_split(clips, n - 1);
        lemma_insts_tail_snoc(clips, 1, n);
        assert(insts_bytes(clips, n) =~= inst_bytes(clips[0]) + insts_tail_bytes(clips, 1, n));
    }
}

/// Parsing the comma-separated remainder of a placement list collects the
/// remaining placements and stops at the terminator.
proof fn lemma_parse_insts_tail_at(b: Seq<u8>, pos: int, clips: Seq<ClipInstance>, k: int)
    requires
        1 <= k <= clips.len(),
        0 <= pos,
        pos + insts_tail_bytes(clips, k, clips.len() as int).len() < b.len(),
        b.subrange(pos, pos + insts_tail_bytes(clips, k, clips.len() as int).len() as int)
            == insts_tail_bytes(clips, k, clips.len() as int),
        b[pos + insts_tail_bytes(clips, k, clips.len() as int).len()] == 93,
    ensures
        parse_insts_tail(b, pos, clips.take(k)) == Some(
            (clips, pos + insts_tail_bytes(clips, k, clips.len() as int).len() as int),
        ),
    decreases clips.len() - k,
{
    let n = clips.len() as int;
    let tb = insts_tail_bytes(clips, k, n);
    if k == n {
        assert(tb =~= Seq::<u8>::empty());
        assert(clips.take(k) =~= clips);
    } else {
        let w = inst_bytes(clips[k]);
        let rest = insts_tail_bytes(clips, k + 1, n);
        assert(tb =~= (seq![44u8] + w) + rest);
        lemma_subrange_split(b, pos, seq![44u8] + w, rest);
        lemma_subrange_split(b, pos, seq![44u8], w);
        let p = pos + 1 + w.len() as int;
        assert(b[pos] == 44) by {
            assert(b.subrange(pos, pos + 1)[0] == 44);
        }
        lemma_parse_instance_at(b, pos + 1, clips[k]);
        lemma_inst_bytes_first(clips[k]);
        assert(clips.take(k).push(clips[k]) =~= clips.take(k + 1));
        lemma_parse_insts_tail_at(b, p, clips, k + 1);
    }
}

/// Parsing at the start of a serialized placement list yields the
/// placements and stops at the terminator.
proof fn lemma_parse_insts_at(b: Seq<u8>, pos: int, clips: Seq<ClipInstance>)
    requires
        0 <= pos,
        pos + insts_bytes(clips, clips.len() as int).len() < b.len(),
        b.subrange(pos, pos + insts_bytes(clips, clips.len() as int).len() as int) == insts_bytes(
            clips,
            clips.len() as int,
        ),
        b[pos + insts_bytes(clips, clips.len() as int).len()] == 93,
    ensures
        parse_insts(b, pos) == Some(
            (clips, pos + insts_bytes(clips, clips.len() as int).len() as int),
        ),
{
    let n = clips.len() as int;
    let w = insts_bytes(clips, n);
    if n == 0 {
        assert(w =~= Seq::<u8>::empty());
        assert(clips =~= Seq::<ClipInstance>::empty());
    } else {
        lemma_insts_split(clips, n);
        let e0 = inst_bytes(clips[0]);
        let rest = insts_tail_bytes(clips, 1, n);
        lemma_subrange_split(b, pos, e0, rest);
        lemma_inst_bytes_first(clips[0]);
        let p = pos + e0.len() as int;
        assert(b[pos] == 123) by {
            assert(b.subrange(pos, p)[0] == e0[0]);
        }
        lemma_parse_instance_at(b, pos, clips[0]);
        assert(seq![clips[0]] =~= clips.take(1));
        lemma_parse_insts_tail_at(b, p, clips, 1);
    }
}



/// The serialized track elements from index `k` on, each preceded by a
/// comma.
spec fn tracks_tail_bytes(xs: Seq<Seq<ClipInstance>>, k: int, n: int) -> Seq<u8>
    decreases n - k,
{
    if k >= n {
        Seq::empty()
    } else {
        seq![44u8] + track_bytes(xs[k]) + tracks_tail_bytes(xs, k + 1, n)
    }
}

/// Extending a comma-separated region by one more element.
proof fn lemma_tracks_tail_snoc(xs: Seq<Seq<ClipInstance>>, k: int, n: int)
    requires
        0 <= k <= n - 1,
    ensures
        tracks_tail_bytes(xs, k, n) == tracks_tail_bytes(xs, k, n - 1) + seq![44u8] + track_bytes(xs[n - 1]),
    decreases n - k,
{
    if k == n - 1 {
        assert(tracks_tail_bytes(xs, k + 1, n) =~= Seq::<u8>::empty());
        assert(tracks_tail_bytes(xs, k, n - 1) =~= Seq::<u8>::empty());
        assert(tracks_tail_bytes(xs, k, n) =~= tracks_tail_bytes(xs, k, n - 1) + seq![44u8] + track_bytes(
            xs[n - 1],
        ));
    } else {
        lemma_tracks_tail_snoc(xs, k + 1, n);
        assert(tracks_tail_bytes(xs, k, n) =~= tracks_tail_bytes(xs, k, n - 1) + seq![44u8] + track_bytes(
            xs[n - 1],
        ));
    }
}

/// A full list splits into its first element and the rest.
proof fn lemma_tracks_split(xs: Seq<Seq<ClipInstance>>, n: int)
    requires
        1 <= n <= xs.len(),
    ensures
        tracks_bytes(xs, n) == track_bytes(xs[0]) + tracks_tail_bytes(xs, 1, n),
    decreases n,
{
    if n == 1 {
        assert(tracks_tail_bytes(xs, 1, 1) =~= Seq::<u8>::empty());
        assert(tracks_bytes(xs, 1) =~= track_bytes(xs[0]) + tracks_tail_bytes(xs, 1, 1));
    } else {
        lemma_tracks_split(xs, n - 1);
        lemma_tracks_tail_snoc(xs, 1, n);
        assert(tracks_bytes(xs, n) =~= track_bytes(xs[0]) + tracks_tail_bytes(xs, 1, n));
    }
}

/// Parsing the comma-separated remainder collects the remaining elements
/// and stops at the terminator.
proof fn lemma_parse_tracks_tail_at(b: Seq<u8>, pos: int, xs: Seq<Seq<ClipInstance>>, k: int)
    requires
        1 <= k <= xs.len(),
        0 <= pos,
        pos + tracks_tail_bytes(xs, k, xs.len() as int).len() < b.len(),
        b.subrange(pos, pos + tracks_tail_bytes(xs, k, xs.len() as int).len() as int) == tracks_tail_bytes(
            xs,
            k,
            xs.len() as int,
        ),
        b[pos + tracks_tail_bytes(xs, k, xs.len() as int).len()] == 93,
    ensures
        parse_tracks_tail(b, pos, xs.take(k)) == Some(
            (xs, pos + tracks_tail_bytes(xs, k, xs.len() as int).len() as int),
        ),
    decreases xs.len() - k,
{
    let n = xs.len() as int;
    let tb = tracks_tail_bytes(xs, k, n);
    if k == n {
        assert(tb =~= Seq::<u8>::empty());
        assert(xs.take(k) =~= xs);
    } else {
        let w = track_bytes(xs[k]);
        let rest = tracks_tail_bytes(xs, k + 1, n);
        assert(tb =~= (seq![44u8] + w) + rest);
        lemma_subrange_split(b, pos, seq![44u8] + w, rest);
        lemma_subrange_split(b, pos, seq![44u8], w);
        let p = pos + 1 + w.len() as int;
        assert(b[pos] == 44) by {
            assert(b.subrange(pos, pos + 1)[0] == 44);
        }
        lemma_parse_track_at(b, pos + 1, xs[k]);
        lemma_track_bytes_first(xs[k]);
        assert(xs.take(k).push(xs[k]) =~= xs.take(k + 1));
        lemma_parse_tracks_tail_at(b, p, xs, k + 1);
    }
}

/// Parsing at the start of a serialized list yields its elements and stops
/// at the terminator.
proof fn lemma_parse_tracks_at(b: Seq<u8>, pos: int, xs: Seq<Seq<ClipInstance>>)
    requires
        0 <= pos,
        pos + tracks_bytes(xs, xs.len() as int).len() < b.len(),
        b.subrange(pos, pos + tracks_bytes(xs, xs.len() as int).len() as int) == tracks_bytes(
            xs,
            xs.len() as int,
        ),
        b[pos + tracks_bytes(xs, xs.len() as int).len()] == 93,
    ensures
        parse_tracks(b, pos) == Some((xs, pos + tracks_bytes(xs, xs.len() as int).len() as int)),
{
    let n = xs.len() as int;
    let w = tracks_bytes(xs, n);
    if n == 0 {
        assert(w =~= Seq::<u8>::empty());
        assert(xs =~= Seq::<Seq<ClipInstance>>::empty());
    } else {
        lemma_tracks_split(xs, n);
        let e0 = track_bytes(xs[0]);
        let rest = tracks_tail_bytes(xs, 1, n);
        lemma_subrange_split(b, pos, e0, rest);
        lemma_track_bytes_first(xs[0]);
        let p = pos + e0.len() as int;
        lemma_parse_track_at(b, pos, xs[0]);
        assert(seq![xs[0]] =~= xs.take(1));
        lemma_parse_tracks_tail_at(b, p, xs, 1);
    }
}


/// The serialized sample elements from index `k` on, each preceded by a
/// comma.
spec fn samples_tail_bytes(xs: Seq<i32>, k: int, n: int) -> Seq<u8>
    decreases n - k,
{
    if k >= n {
        Seq::empty()
    } else {
        seq![44u8] + sample_text(xs[k]) + samples_tail_bytes(xs, k + 1, n)
    }
}

/// Extending a comma-separated region by one more element.
proof fn lemma_samples_tail_snoc(xs: Seq<i32>, k: int, n: int)
    requires
        0 <= k <= n - 1,
    ensures
        samples_tail_bytes(xs, k, n) == samples_tail_bytes(xs, k, n - 1) + seq![44u8] + sample_text(xs[n - 1]),
    decreases n - k,
{
    if k == n - 1 {
        assert(samples_tail_bytes(xs, k + 1, n) =~= Seq::<u8>::empty());
        assert(samples_tail_bytes(xs, k, n - 1) =~= Seq::<u8>::empty());
        assert(samples_tail_bytes(xs, k, n) =~= samples_tail_bytes(xs, k, n - 1) + seq![44u8] + sample_text(
            xs[n - 1],
        ));
    } else {
        lemma_samples_tail_snoc(xs, k + 1, n);
        assert(samples_tail_bytes(xs, k, n) =~= samples_tail_bytes(xs, k, n - 1) + seq![44u8] + sample_text(
            xs[n - 1],
        ));
    }
}

/// A full list splits into its first element and the rest.
proof fn lemma_samples_split(xs: Seq<i32>, n: int)
    requires
        1 <= n <= xs.len(),
    ensures
        samples_bytes(xs, n) == sample_text(xs[0]) + samples_tail_bytes(xs, 1, n),
    decreases n,
{
    if n == 1 {
        assert(samples_tail_bytes(xs, 1, 1) =~= Seq::<u8>::empty());
        assert(samples_bytes(xs, 1) =~= sample_text(xs[0]) + samples_tail_bytes(xs, 1, 1));
    } else {
        lemma_samples_split(xs, n - 1);
        lemma_samples_tail_snoc(xs, 1, n);
        assert(samples_bytes(xs, n) =~= sample_text(xs[0]) + samples_tail_bytes(xs, 1, n));
    }
}

/// Parsing the comma-separated remainder collects the remaining elements
/// and stops at the terminator.
proof fn lemma_parse_samples_tail_at(b: Seq<u8>, pos: int, xs: Seq<i32>, k: int)
    requires
        1 <= k <= xs.len(),
        0 <= pos,
        pos + samples_tail_bytes(xs, k, xs.len() as int).len() < b.len(),
        b.subrange(pos, pos + samples_tail_bytes(xs, k, xs.len() as int).len() as int) == samples_tail_bytes(
            xs,
            k,
            xs.len() as int,
        ),
        b[pos + samples_tail_bytes(xs, k, xs.len() as int).len()] == 93,
    ensures
        parse_samples_tail(b, pos, xs.take(k)) == Some(
            (xs, pos + samples_tail_bytes(xs, k, xs.len() as int).len() as int),
        ),
    decreases xs.len() - k,
{
    let n = xs.len() as int;
    let tb = samples_tail_bytes(xs, k, n);
    if k == n {
        assert(tb =~= Seq::<u8>::empty());
        assert(xs.take(k) =~= xs);
    } else {
        let w = sample_text(xs[k]);
        let rest = samples_tail_bytes(xs, k + 1, n);
        assert(tb =~= (seq![44u8] + w) + rest);
        lemma_subrange_split(b, pos, seq![44u8] + w, rest);
        lemma_subrange_split(b, pos, seq![44u8], w);
        let p = pos + 1 + w.len() as int;
        assert(b[pos] == 44) by {
            assert(b.subrange(pos, pos + 1)[0] == 44);
        }
        if k + 1 == n {
            assert(rest =~= Seq::<u8>::empty());
            assert(b[p] == 93);
        } else {
            assert(rest =~= (seq![44u8] + sample_text(xs[k + 1])) + samples_tail_bytes(
                xs,
                k + 2,
                n,
            ));
            assert(b[p] == 44) by {
                assert(b.subrange(p, p + rest.len() as int)[0] == rest[0]);
            }
        }
        assert(!is_digit(b[p]));
        lemma_parse_sample_at(b, pos + 1, xs[k]);
        lemma_sample_text_first(xs[k]);
        assert(xs.take(k).push(xs[k]) =~= xs.take(k + 1));
        lemma_parse_samples_tail_at(b, p, xs, k + 1);
    }
}

/// Parsing at the start of a serialized list yields its elements and stops
/// at the terminator.
proof fn lemma_parse_samples_at(b: Seq<u8>, pos: int, xs: Seq<i32>)
    requires
        0 <= pos,
        pos + samples_bytes(xs, xs.len() as int).len() < b.len(),
        b.subrange(pos, pos + samples_bytes(xs, xs.len() as int).len() as int) == samples_bytes(
            xs,
            xs.len() as int,
        ),
        b[pos + samples_bytes(xs, xs.len() as int).len()] == 93,
    ensures
        parse_samples(b, pos) == Some((xs, pos + samples_bytes(xs, xs.len() as int).len() as int)),
{
    let n = xs.len() as int;
    let w = samples_bytes(xs, n);
    if n == 0 {
        assert(w =~= Seq::<u8>::empty());
        assert(xs =~= Seq::<i32>::empty());
    } else {
        lemma_samples_split(xs, n);
        let e0 = sample_text(xs[0]);
        let rest = samples_tail_bytes(xs, 1, n);
        lemma_subrange_split(b, pos, e0, rest);
        lemma_sample_text_first(xs[0]);
        let p = pos + e0.len() as int;
        if n == 1 {
            assert(rest =~= Seq::<u8>::empty());
            assert(b[p] == 93);
        } else {
            assert(rest =~= (seq![44u8] + sample_text(xs[1])) + samples_tail_bytes(xs, 2, n));
            assert(b[p] == 44) by {
                assert(b.subrange(p, p + rest.len() as int)[0] == rest[0]);
            }
        }
        assert(!is_digit(b[p]));
        lemma_parse_sample_at(b, pos, xs[0]);
        assert(seq![xs[0]] =~= xs.take(1));
        lemma_parse_samples_tail_at(b, p, xs, 1);
    }
}


/// The serialized clip elements from index `k` on, each preceded by a
/// comma.
spec fn clips_tail_bytes(xs: Seq<Seq<i32>>, k: int, n: int) -> Seq<u8>
    decreases n - k,
{
    if k >= n {
        Seq::empty()
    } else {
        seq![44u8] + clip_bytes(xs[k]) + clips_tail_bytes(xs, k + 1, n)
    }
}

/// Extending a comma-separated region by one more element.
proof fn lemma_clips_tail_snoc(xs: Seq<Seq<i32>>, k: int, n: int)
    requires
        0 <= k <= n - 1,
    ensures
        clips_tail_bytes(xs, k, n) == clips_tail_bytes(xs, k, n - 1) + seq![44u8] + clip_bytes(xs[n - 1]),
    decreases n - k,
{
    if k == n - 1 {
        assert(clips_tail_bytes(xs, k + 1, n) =~= Seq::<u8>::empty());
        assert(clips_tail_bytes(xs, k, n - 1) =~= Seq::<u8>::empty());
        assert(clips_tail_bytes(xs, k, n) =~= clips_tail_bytes(xs, k, n - 1) + seq![44u8] + clip_bytes(
            xs[n - 1],
        ));
    } else {
        lemma_clips_tail_snoc(xs, k + 1, n);
        assert(clips_tail_bytes(xs, k, n) =~= clips_tail_bytes(xs, k, n - 1) + seq![44u8] + clip_bytes(
            xs[n - 1],
        ));
    }
}

/// A full list splits into its first element and the rest.
proof fn lemma_clips_split(xs: Seq<Seq<i32>>, n: int)
    requires
        1 <= n <= xs.len(),
    ensures
        clips_bytes(xs, n) == clip_bytes(xs[0]) + clips_tail_bytes(xs, 1, n),
    decreases n,
{
    if n == 1 {
        assert(clips_tail_bytes(xs, 1, 1) =~= Seq::<u8>::empty());
        assert(clips_bytes(xs, 1) =~= clip_bytes(xs[0]) + clips_tail_bytes(xs, 1, 1));
    } else {
        lemma_clips_split(xs, n - 1);
        lemma_clips_tail_snoc(xs, 1, n);
        assert(clips_bytes(xs, n) =~= clip_bytes(xs[0]) + clips_tail_bytes(xs, 1, n));
    }
}

/// Parsing the comma-separated remainder collects the remaining elements
/// and stops at the terminator.
proof fn lemma_parse_clips_tail_at(b: Seq<u8>, pos: int, xs: Seq<Seq<i32>>, k: int)
    requires
        1 <= k <= xs.len(),
        0 <= pos,
        pos + clips_tail_bytes(xs, k, xs.len() as int).len() < b.len(),
        b.subrange(pos, pos + clips_tail_bytes(xs, k, xs.len() as int).len() as int) == clips_tail_bytes(
            xs,
            k,
            xs.len() as int,
        ),
        b[pos + clips_tail_bytes(xs, k, xs.len() as int).len()] == 93,
    ensures
        parse_clips_tail(b, pos, xs.take(k)) == Some(
            (xs, pos + clips_tail_bytes(xs, k, xs.len() as int).len() as int),
        ),
    decreases xs.len() - k,
{
    let n = xs.len() as int;
    let tb = clips_tail_bytes(xs, k, n);
    if k == n {
        assert(tb =~= Seq::<u8>::empty());
        assert(xs.take(k) =~= xs);
    } else {
        let w = clip_bytes(xs[k]);
        let rest = clips_tail_bytes(xs, k + 1, n);
        assert(tb =~= (seq![44u8] + w) + rest);
        lemma_subrange_split(b, pos, seq![44u8] + w, rest);
        lemma_subrange_split(b, pos, seq![44u8], w);
        let p = pos + 1 + w.len() as int;
        assert(b[pos] == 44) by {
            assert(b.subrange(pos, pos + 1)[0] == 44);
        }
        lemma_parse_clip_at(b, pos + 1, xs[k]);
        lemma_clip_bytes_first(xs[k]);
        assert(xs.take(k).push(xs[k]) =~= xs.take(k + 1));
        lemma_parse_clips_tail_at(b, p, xs, k + 1);
    }
}

/// Parsing at the start of a serialized list yields its elements and stops
/// at the terminator.
proof fn lemma_parse_clips_at(b: Seq<u8>, pos: int, xs: Seq<Seq<i32>>)
    requires
        0 <= pos,
        pos + clips_bytes(xs, xs.len() as int).len() < b.len(),
        b.subrange(pos, pos + clips_bytes(xs, xs.len() as int).len() as int) == clips_bytes(
            xs,
            xs.len() as int,
        ),
        b[pos + clips_bytes(xs, xs.len() as int).len()] == 93,
    ensures
        parse_clips(b, pos) == Some((xs, pos + clips_bytes(xs, xs.len() as int).len() as int)),
{
    let n = xs.len() as int;
    let w = clips_bytes(xs, n);
    if n == 0 {
        assert(w =~= Seq::<u8>::empty());
        assert(xs =~= Seq::<Seq<i32>>::empty());
    } else {
        lemma_clips_split(xs, n);
        let e0 = clip_bytes(xs[0]);
        let rest = clips_tail_bytes(xs, 1, n);
        lemma_subrange_split(b, pos, e0, rest);
        lemma_clip_bytes_first(xs[0]);
        let p = pos + e0.len() as int;
        lemma_parse_clip_at(b, pos, xs[0]);
        assert(seq![xs[0]] =~= xs.take(1));
        lemma_parse_clips_tail_at(b, p, xs, 1);
    }
}

/// The decimal text of a sample value.
pub open spec fn sample_text(v: i32) -> Seq<u8> {
    int_bytes(v as int)
}

/// A sample's text never begins with a separator or terminator.
proof fn lemma_sample_text_first(v: i32)
    ensures
        sample_text(v).len() >= 1,
        sample_text(v)[0] != 44,
        sample_text(v)[0] != 93,
{
    if v < 0 {
        lemma_dec_digits_props(-(v as int));
        assert(sample_text(v)[0] == 45);
    } else {
        lemma_dec_digits_props(v as int);
        assert(sample_text(v)[0] == dec_digits(v as int)[0]);
        assert(is_digit(dec_digits(v as int)[0]));
    }
}

/// Parsing at the start of a sample's text yields the sample and stops at
/// its end, provided no digit follows it.
proof fn lemma_parse_sample_at(b: Seq<u8>, pos: int, v: i32)
    requires
        0 <= pos,
        pos + sample_text(v).len() <= b.len(),
        b.subrange(pos, pos + sample_text(v).len() as int) == sample_text(v),
        pos + sample_text(v).len() == b.len() || !is_digit(b[pos + sample_text(v).len()]),
    ensures
        parse_sample(b, pos) == Some((v, pos + sample_text(v).len() as int)),
{
    let w = sample_text(v);
    if v < 0 {
        let d = dec_digits(-(v as int));
        lemma_dec_digits_props(-(v as int));
        assert(w =~= seq![45u8] + d);
        lemma_subrange_split(b, pos, seq![45u8], d);
        assert(b[pos] == 45) by {
            assert(b.subrange(pos, pos + 1)[0] == 45);
        }
        lemma_parse_digits_at(b, pos + 1, -(v as int));
    } else {
        lemma_dec_digits_props(v as int);
        assert(b[pos] == dec_digits(v as int)[0]) by {
            assert(b.subrange(pos, pos + w.len() as int)[0] == w[0]);
        }
        assert(is_digit(b[pos]) && b[pos] != 45);
        lemma_parse_digits_at(b, pos, v as int);
    }
}

/// The first byte of a track's serialization.
proof fn lemma_track_bytes_first(clips: Seq<ClipInstance>)
    ensures
        track_bytes(clips).len() >= 12,
        track_bytes(clips)[0] == 123,
{
    assert(track_bytes(clips)[0] == tok_track_open()[0]);
}

/// Parsing at the start of a track's serialization yields its placements
/// and stops at its end.
proof fn lemma_parse_track_at(b: Seq<u8>, pos: int, clips: Seq<ClipInstance>)
    requires
        0 <= pos,
        pos + track_bytes(clips).len() <= b.len(),
        b.subrange(pos, pos + track_bytes(clips).len() as int) == track_bytes(clips),
    ensures
        parse_track(b, pos) == Some((clips, pos + track_bytes(clips).len() as int)),
{
    let w = track_bytes(clips);
    let lb = insts_bytes(clips, clips.len() as int);
    assert(w =~= (tok_track_open() + lb) + tok_track_close());
    lemma_subrange_split(b, pos, tok_track_open() + lb, tok_track_close());
    lemma_subrange_split(b, pos, tok_track_open(), lb);
    let p1 = pos + 10;
    let p2 = p1 + lb.len() as int;
    assert(parse_lit(b, pos, tok_track_open()) == Some(p1));
    assert(b[p2] == 93) by {
        assert(b.subrange(p2, p2 + 2)[0] == tok_track_close()[0]);
    }
    lemma_parse_insts_at(b, p1, clips);
    assert(parse_lit(b, p2, tok_track_close()) == Some(p2 + 2));
}

/// The first byte of a clip's serialization.
proof fn lemma_clip_bytes_first(data: Seq<i32>)
    ensures
        clip_bytes(data).len() >= 11,
        clip_bytes(data)[0] == 123,
{
    assert(clip_bytes(data)[0] == tok_clip_open()[0]);
}

/// Parsing at the start of a clip's serialization yields its samples and
/// stops at its end.
proof fn lemma_parse_clip_at(b: Seq<u8>, pos: int, data: Seq<i32>)
    requires
        0 <= pos,
        pos + clip_bytes(data).len() <= b.len(),
        b.subrange(pos, pos + clip_bytes(data).len() as int) == clip_bytes(data),
    ensures
        parse_clip(b, pos) == Some((data, pos + clip_bytes(data).len() as int)),
{
    let w = clip_bytes(data);
    let lb = samples_bytes(data, data.len() as int);
    assert(w =~= (tok_clip_open() + lb) + tok_clip_close());
    lemma_subrange_split(b, pos, tok_clip_open() + lb, tok_clip_close());
    lemma_subrange_split(b, pos, tok_clip_open(), lb);
    let p1 = pos + 9;
    let p2 = p1 + lb.len() as int;
    assert(parse_lit(b, pos, tok_clip_open()) == Some(p1));
    assert(b[p2] == 93) by {
        assert(b.subrange(p2, p2 + 2)[0] == tok_clip_close()[0]);
    }
    lemma_parse_samples_at(b, p1, data);
    assert(parse_lit(b, p2, tok_clip_close()) == Some(p2 + 2));
}

/// Where each region of a serialized project lies.
#[verifier::rlimit(100)]
#[verifier::spinoff_prover]
proof fn lemma_project_bytes_regions(
    sample_rate: u32,
    tracks: Seq<Seq<ClipInstance>>,
    db: Seq<Seq<i32>>,
)
    ensures
        ({
            let b = project_bytes(sample_rate as int, tracks, db);
            let d = dec_digits(sample_rate as int);
            let tb = tracks_bytes(tracks, tracks.len() as int);
            let cb = clips_bytes(db, db.len() as int);
            let p1: int = 15;
            let p2 = p1 + d.len() as int;
            let p3 = p2 + 23;
            let p4 = p3 + tb.len() as int;
            let p5 = p4 + 29;
            let p6 = p5 + cb.len() as int;
            let p7 = p6 + 3;
            &&& b.len() == p7
            &&& b.subrange(0, p1) == tok_head()
            &&& b.subrange(p1, p2) == d
            &&& b.subrange(p2, p3) == tok_timeline()
            &&& b.subrange(p3, p4) == tb
            &&& b.subrange(p4, p5) == tok_store()
            &&& b.subrange(p5, p6) == cb
            &&& b.subrange(p6, p7) == tok_tail()
        }),
{
    let b = project_bytes(sample_rate as int, tracks, db);
    let d = dec_digits(sample_rate as int);
    let tb = tracks_bytes(tracks, tracks.len() as int);
    let cb = clips_bytes(db, db.len() as int);
    assert(b.subrange(0, b.len() as int) =~= b);
    lemma_subrange_split(b, 0, ((((tok_head() + d) + tok_timeline()) + tb) + tok_store()) + cb,
        tok_tail());
    lemma_subrange_split(b, 0, (((tok_head() + d) + tok_timeline()) + tb) + tok_store(), cb);
    lemma_subrange_split(b, 0, ((tok_head() + d) + tok_timeline()) + tb, tok_store());
    lemma_subrange_split(b, 0, (tok_head() + d) + tok_timeline(), tb);
    lemma_subrange_split(b, 0, tok_head() + d, tok_timeline());
    lemma_subrange_split(b, 0, tok_head(), d);
}

/// Assembling the whole-project parse from its regions.
#[verifier::rlimit(100)]
#[verifier::spinoff_prover]
proof fn lemma_parse_project_assembly(
    b: Seq<u8>,
    sample_rate: u32,
    tracks: Seq<Seq<ClipInstance>>,
    db: Seq<Seq<i32>>,
)
    requires
        ({
            let d = dec_digits(sample_rate as int);
            let tb = tracks_bytes(tracks, tracks.len() as int);
            let cb = clips_bytes(db, db.len() as int);
            let p1: int = 15;
            let p2 = p1 + d.len() as int;
            let p3 = p2 + 23;
            let p4 = p3 + tb.len() as int;
            let p5 = p4 + 29;
            let p6 = p5 + cb.len() as int;
            let p7 = p6 + 3;
            &&& b.len() == p7
            &&& b.subrange(0, p1) == tok_head()
            &&& b.subrange(p1, p2) == d
            &&& b.subrange(p2, p3) == tok_timeline()
            &&& b.subrange(p3, p4) == tb
            &&& b.subrange(p4, p5) == tok_store()
            &&& b.subrange(p5, p6) == cb
            &&& b.subrange(p6, p7) == tok_tail()
        }),
    ensures
        parse_project(b) == Some((sample_rate, tracks, db)),
{
    let d = dec_digits(sample_rate as int);
    lemma_dec_digits_props(sample_rate as int);
    let tb = tracks_bytes(tracks, tracks.len() as int);
    let cb = clips_bytes(db, db.len() as int);
    let p1: int = 15;
    let p2 = p1 + d.len() as int;
    let p3 = p2 + 23;
    let p4 = p3 + tb.len() as int;
    let p5 = p4 + 29;
    let p6 = p5 + cb.len() as int;
    let p7 = p6 + 3;
    assert(parse_lit(b, 0, tok_head()) == Some(p1));
    assert(b[p2] == 44 && !is_digit(b[p2])) by {
        assert(b.subrange(p2, p3)[0] == tok_timeline()[0]);
    }
    lemma_parse_digits_at(b, p1, sample_rate as int);
    assert(parse_lit(b, p2, tok_timeline()) == Some(p3));
    assert(b[p4] == 93) by {
        assert(b.subrange(p4, p5)[0] == tok_store()[0]);
    }
    lemma_parse_tracks_at(b, p3, tracks);
    assert(parse_lit(b, p4, tok_store()) == Some(p5));
    assert(b[p6] == 93) by {
        assert(b.subrange(p6, p7)[0] == tok_tail()[0]);
    }
    lemma_parse_clips_at(b, p5, db);
    assert(parse_lit(b, p6, tok_tail()) == Some(p7));
}

/// Saving and loading round-trips: parsing a project's canonical
/// serialization yields back exactly the sample rate, the timeline
/// structure, and the clip store contents.
pub proof fn lemma_save_load_roundtrip(
    sample_rate: u32,
    tracks: Seq<Seq<ClipInstance>>,
    db: Seq<Seq<i32>>,
)
    ensures
        parse_project(project_bytes(sample_rate as int, tracks, db)) == Some(
            (sample_rate, tracks, db),
        ),
{
    lemma_project_bytes_regions(sample_rate, tracks, db);
    lemma_parse_project_assembly(
        project_bytes(sample_rate as int, tracks, db),
        sample_rate,
        tracks,
        db,
    );
}

} // verus!
