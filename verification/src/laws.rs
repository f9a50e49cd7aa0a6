//! The engine's cross-cutting guarantees, stated and proved over the same
//! specifications that the executable functions are verified against.

use vstd::prelude::*;

use crate::clip_database::ClipId;
use crate::sample::clamp_spec;
use crate::track::{
    clip_at_spec, clip_data, eligible, first_at, first_at_from, inst_end, inst_start,
    last_eligible_start, lemma_clip_at_covers, lemma_first_at_iff, lemma_les_hit, resolvable,
    sample_of, track_sample, ClipInstance,
};
use crate::wav::{norm_sample, quant16, wav_bytes, wav_decode, lemma_wav_roundtrip};
use vstd::arithmetic::div_mod::lemma_fundamental_div_mod;

verus! {

/// A clip store whose every sample lies in the nominal amplitude range.
pub open spec fn bounded_db(db: Seq<Seq<i32>>) -> bool {
    forall|c: int, j: int|
        0 <= c < db.len() && 0 <= j < db[c].len() ==> -1_000_000 <= #[trigger] db[c][j]
            <= 1_000_000
}

/// The last eligible start lies inside the scanned range and is eligible.
proof fn lemma_les_props(db: Seq<Seq<i32>>, clips: Seq<ClipInstance>, s: int, t: int)
    ensures
        last_eligible_start(db, clips, s, t) matches Some(v) ==> s < v <= t && eligible(
            db,
            clips,
            v,
        ),
    decreases t - s,
{
    if t > s && !eligible(db, clips, t) {
        lemma_les_props(db, clips, s, t - 1);
    }
}

/// Every placement found by `first_at` starts where it was sought and, when
/// eligible, resolves in the store.
proof fn lemma_first_at_start(clips: Seq<ClipInstance>, v: int, j: int)
    requires
        0 <= j <= clips.len(),
    ensures
        first_at_from_matches(clips, v, j),
    decreases clips.len() - j,
{
    if j < clips.len() && inst_start(clips[j]) != v {
        lemma_first_at_start(clips, v, j + 1);
    }
}

/// What `first_at_from` returns starts at the sought position.
spec fn first_at_from_matches(clips: Seq<ClipInstance>, v: int, j: int) -> bool {
    crate::track::first_at_from(clips, v, j) matches Some(c) ==> inst_start(c) == v
}

/// Rendering a track never leaves the nominal amplitude range, provided
/// every stored clip stays inside it.
pub proof fn lemma_track_render_in_range(
    db: Seq<Seq<i32>>,
    clips: Seq<ClipInstance>,
    s: int,
    t: int,
)
    requires
        bounded_db(db),
        s <= t,
    ensures
        -1_000_000 <= track_sample(db, clips, s, t) <= 1_000_000,
{
    lemma_les_props(db, clips, s, t);
    match last_eligible_start(db, clips, s, t) {
        Some(v) => {
            lemma_first_at_start(clips, v, 0);
            let c = first_at(clips, v)->0;
            assert(resolvable(db, c));
            if t - v < clip_data(db, c).len() {
                assert(-1_000_000 <= db[c.clip_id@][t - v] <= 1_000_000);
            }
        },
        None => {
            lemma_clip_at_covers(db, clips, s, clips.len() as int);
            match clip_at_spec(db, clips, s) {
                Some(c) => {
                    if t - inst_start(c) < clip_data(db, c).len() {
                        assert(-1_000_000 <= db[c.clip_id@][t - inst_start(c)] <= 1_000_000);
                    }
                },
                None => {},
            }
        },
    }
}

/// A placement inserted after an overlapping one dominates from its start
/// onward: while no further start has been reached, the track plays the
/// later placement's content (silence past its end), whatever was placed
/// before it.
pub proof fn lemma_later_clip_dominates(
    db: Seq<Seq<i32>>,
    clips: Seq<ClipInstance>,
    b: ClipInstance,
    s: int,
    t: int,
)
    requires
        first_at(clips, inst_start(b)) == Some(b),
        resolvable(db, b),
        s < inst_start(b) <= t,
        forall|m: int|
            0 <= m < clips.len() ==> !(inst_start(b) < #[trigger] inst_start(clips[m]) <= t),
    ensures
        track_sample(db, clips, s, t) == sample_of(db, b, inst_start(b), t),
{
    let v = inst_start(b);
    assert forall|w: int| v < w <= t implies !eligible(db, clips, w) by {
        lemma_first_at_iff(clips, w, 0);
    }
    lemma_les_hit(db, clips, s, v, t);
}


/// The punch-in shape of dominance, concretely: a track holding `a` then a
/// later-inserted `b` that starts strictly after `a` plays `b`'s own data
/// wherever `b` is sounding, whatever `a` holds there. (When the
/// earlier-inserted placement is the one that starts later, the track
/// policy plays whichever start was reached last instead, so the roles
/// swap; dominance by insertion order holds for this punch-in shape.)
pub proof fn lemma_punch_in_dominates(
    db: Seq<Seq<i32>>,
    a: ClipInstance,
    b: ClipInstance,
    s: int,
    t: int,
)
    requires
        resolvable(db, a),
        resolvable(db, b),
        inst_start(a) < inst_start(b),
        s < inst_start(b),
        inst_start(b) <= t < inst_end(db, b),
    ensures
        track_sample(db, seq![a, b], s, t) == clip_data(db, b)[t - inst_start(b)],
{
    let clips = seq![a, b];
    let v = inst_start(b);
    assert(clips.len() == 2 && clips[0] == a && clips[1] == b);
    assert(first_at_from(clips, v, 1) == Some(b));
    assert(first_at(clips, v) == Some(b));
    assert forall|m: int|
        0 <= m < clips.len() implies !(inst_start(b) < #[trigger] inst_start(clips[m]) <= t) by {
        assert(m == 0 || m == 1);
    }
    lemma_later_clip_dominates(db, clips, b, s, t);
}

/// Arming, recording `n` samples, and stopping places exactly one new clip:
/// the armed track gains one placement starting at the playhead captured at
/// arming, whose stored clip is the recorded buffer of length `n`; every
/// other track and every stored clip is untouched.
pub proof fn lemma_record_capture(
    db: Seq<Seq<i32>>,
    tracks: Seq<Seq<ClipInstance>>,
    k: int,
    record_start: int,
    recorded: Seq<i32>,
)
    requires
        0 <= k < tracks.len(),
        0 <= record_start <= usize::MAX,
        recorded.len() > 0,
    ensures
        ({
            let inst = ClipInstance {
                time: record_start as usize,
                clip_id: ClipId(db.len() as usize),
            };
            let db2 = db.push(recorded);
            let tracks2 = tracks.update(k, tracks[k].push(inst));
            &&& tracks2[k].len() == tracks[k].len() + 1
            &&& tracks2[k].last() == inst
            &&& inst_start(inst) == record_start
            &&& db.len() <= usize::MAX ==> resolvable(db2, inst) && clip_data(db2, inst)
                == recorded && clip_data(db2, inst).len() == recorded.len() && inst_end(db2, inst)
                == record_start + recorded.len()
            &&& forall|m: int| 0 <= m < tracks.len() && m != k ==> tracks2[m] == tracks[m]
            &&& forall|c: int| 0 <= c < db.len() ==> db2[c] == db[c]
        }),
{
}

/// One step of the export round trip: quantizing an in-range amplitude to
/// 16 bits and normalizing it back moves it by at most 16 millionths of
/// full scale (half the quantization step each way).
pub proof fn lemma_quant_roundtrip(m: int)
    requires
        -1_000_000 <= m <= 1_000_000,
    ensures
        -16 <= norm_sample(quant16(m), 16) - m <= 16,
{
    assert(clamp_spec(m) == m);
    let q = quant16(m);
    let m2 = norm_sample(q, 16);
    if m >= 0 {
        let x = m * 32767;
        lemma_fundamental_div_mod(x + 500_000, 1_000_000);
        assert(q == (x + 500_000) / 1_000_000);
        assert(x + 500_000 == 1_000_000 * q + (x + 500_000) % 1_000_000);
        assert(0 <= (x + 500_000) % 1_000_000 < 1_000_000);
        assert(q >= 0) by (nonlinear_arith)
            requires
                x >= 0,
                x + 500_000 == 1_000_000 * q + (x + 500_000) % 1_000_000,
                0 <= (x + 500_000) % 1_000_000 < 1_000_000,
        ;
        let y = q * 1_000_000;
        lemma_fundamental_div_mod(y + 16383, 32767);
        assert(m2 == (y + 16383) / 32767);
        assert(y + 16383 == 32767 * m2 + (y + 16383) % 32767);
        assert(0 <= (y + 16383) % 32767 < 32767);
        assert(y == 1_000_000 * q) by (nonlinear_arith)
            requires
                y == q * 1_000_000,
        ;
        assert(-516383 <= 32767 * (m2 - m) <= 516383) by (nonlinear_arith)
            requires
                x == m * 32767,
                y == 1_000_000 * q,
                x + 500_000 == 1_000_000 * q + (x + 500_000) % 1_000_000,
                0 <= (x + 500_000) % 1_000_000 < 1_000_000,
                y + 16383 == 32767 * m2 + (y + 16383) % 32767,
                0 <= (y + 16383) % 32767 < 32767,
        ;
        assert(-16 <= m2 - m <= 16) by (nonlinear_arith)
            requires
                -516383 <= 32767 * (m2 - m) <= 516383,
        ;
    } else {
        let x = -(m * 32767);
        lemma_fundamental_div_mod(x + 500_000, 1_000_000);
        assert(q == -((x + 500_000) / 1_000_000));
        assert(x + 500_000 == 1_000_000 * (-q) + (x + 500_000) % 1_000_000);
        assert(0 <= (x + 500_000) % 1_000_000 < 1_000_000);
        assert(-q >= 0) by (nonlinear_arith)
            requires
                x >= 0,
                x + 500_000 == 1_000_000 * (-q) + (x + 500_000) % 1_000_000,
                0 <= (x + 500_000) % 1_000_000 < 1_000_000,
        ;
        if q == 0 {
            assert(m2 == 0);
            assert(-16 <= m2 - m <= 16) by (nonlinear_arith)
                requires
                    m2 == 0,
                    x == -(m * 32767),
                    x + 500_000 == 1_000_000 * (-q) + (x + 500_000) % 1_000_000,
                    0 <= (x + 500_000) % 1_000_000 < 1_000_000,
                    q == 0,
                    m <= 0,
            ;
        } else {
            let y = -(q * 1_000_000);
            assert(y >= 0) by (nonlinear_arith)
                requires
                    q <= 0,
                    y == -(q * 1_000_000),
            ;
            lemma_fundamental_div_mod(y + 16383, 32767);
            assert(m2 == -((y + 16383) / 32767));
            assert(y + 16383 == 32767 * (-m2) + (y + 16383) % 32767);
            assert(0 <= (y + 16383) % 32767 < 32767);
            assert(-516383 <= 32767 * (m2 - m) <= 516383) by (nonlinear_arith)
                requires
                    x == -(m * 32767),
                    y == -(q * 1_000_000),
                    x + 500_000 == 1_000_000 * (-q) + (x + 500_000) % 1_000_000,
                    0 <= (x + 500_000) % 1_000_000 < 1_000_000,
                    y + 16383 == 32767 * (-m2) + (y + 16383) % 32767,
                    0 <= (y + 16383) % 32767 < 32767,
            ;
            assert(-16 <= m2 - m <= 16) by (nonlinear_arith)
                requires
                    -516383 <= 32767 * (m2 - m) <= 516383,
            ;
        }
    }
}


/// The export round trip end to end: encoding rendered samples as a WAV
/// file and decoding it again succeeds and reproduces every in-range
/// sample within quantization error (16 millionths of full scale, about
/// half of `1/32767`).
pub proof fn lemma_export_reload_close(sample_rate: u32, samples: Seq<int>)
    requires
        2 * samples.len() + 36 <= u32::MAX,
        forall|i: int| 0 <= i < samples.len() ==> -1_000_000 <= #[trigger] samples[i] <= 1_000_000,
    ensures
        ({
            let decoded = wav_decode(wav_bytes(sample_rate as int, samples), sample_rate as int);
            &&& decoded matches Ok(d)
            &&& decoded->Ok_0.len() == samples.len()
            &&& forall|i: int|
                0 <= i < samples.len() ==> -16 <= decoded->Ok_0[i] - #[trigger] samples[i] <= 16
        }),
{
    lemma_wav_roundtrip(sample_rate, samples);
    let decoded = wav_decode(wav_bytes(sample_rate as int, samples), sample_rate as int);
    assert forall|i: int|
        0 <= i < samples.len() implies -16 <= decoded->Ok_0[i] - #[trigger] samples[i] <= 16 by {
        lemma_quant_roundtrip(samples[i]);
    }
}

} // verus!
