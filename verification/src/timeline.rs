//! The timeline: a fixed set of parallel tracks mixed by sum-and-clamp.

use vstd::prelude::*;

use crate::clip_database::ClipDatabase;
use crate::sample::clamp_spec;
use crate::mix_sum;
use crate::mix_sample;
use crate::track::{track_len_spec, track_sample, ClipInstance, Track};

verus! {

/// The sum at position `t` (for a window starting at `s`) over the first
/// `j` tracks, skipping excluded track numbers.
pub open spec fn timeline_sum(
    db: Seq<Seq<i32>>,
    tracks: Seq<Seq<ClipInstance>>,
    exclude: Seq<usize>,
    s: int,
    t: int,
    j: int,
) -> int
    decreases j,
{
    if j <= 0 {
        0
    } else {
        timeline_sum(db, tracks, exclude, s, t, j - 1) + if !exclude.contains((j - 1) as usize) {
            track_sample(db, tracks[j - 1], s, t) as int
        } else {
            0
        }
    }
}

/// What the timeline plays at position `t` of a window starting at `s`: the
/// non-excluded tracks' samples summed, clamped once to the nominal range.
pub open spec fn timeline_sample(
    db: Seq<Seq<i32>>,
    tracks: Seq<Seq<ClipInstance>>,
    exclude: Seq<usize>,
    s: int,
    t: int,
) -> int {
    clamp_spec(timeline_sum(db, tracks, exclude, s, t, tracks.len() as int))
}

/// The timeline length: the greatest track length.
pub open spec fn timeline_len_spec(db: Seq<Seq<i32>>, tracks: Seq<Seq<ClipInstance>>) -> int
    decreases tracks.len(),
{
    if tracks.len() == 0 {
        0
    } else {
        let rest = timeline_len_spec(db, tracks.drop_last());
        let l = track_len_spec(db, tracks.last());
        if l >= rest {
            l
        } else {
            rest
        }
    }
}

/// Each track is no longer than the whole timeline.
proof fn lemma_timeline_len_bounds(db: Seq<Seq<i32>>, tracks: Seq<Seq<ClipInstance>>, k: int)
    requires
        0 <= k < tracks.len(),
    ensures
        track_len_spec(db, tracks[k]) <= timeline_len_spec(db, tracks),
        timeline_len_spec(db, tracks) >= 0,
    decreases tracks.len(),
{
    lemma_timeline_len_nonneg(db, tracks);
    if k < tracks.len() - 1 {
        assert(tracks.drop_last()[k] == tracks[k]);
        lemma_timeline_len_bounds(db, tracks.drop_last(), k);
    }
}

/// The timeline length is never negative.
proof fn lemma_timeline_len_nonneg(db: Seq<Seq<i32>>, tracks: Seq<Seq<ClipInstance>>)
    ensures
        timeline_len_spec(db, tracks) >= 0,
    decreases tracks.len(),
{
    if tracks.len() > 0 {
        lemma_timeline_len_nonneg(db, tracks.drop_last());
    }
}

/// All clip placements of all tracks, paired with their track number, in
/// track order and insertion order.
pub open spec fn all_clips(tracks: Seq<Seq<ClipInstance>>, j: int) -> Seq<(usize, ClipInstance)>
    decreases j,
{
    if j <= 0 {
        Seq::empty()
    } else {
        all_clips(tracks, j - 1) + tracks[j - 1].map_values(
            |c: ClipInstance| ((j - 1) as usize, c),
        )
    }
}

/// Whether a track number is in the excluded list.
fn contains_usize(v: &Vec<usize>, x: usize) -> (r: bool)
    ensures
        r == v@.contains(x),
{
    let mut i: usize = 0;
    while i < v.len()
        invariant
            0 <= i <= v@.len(),
            forall|k: int| 0 <= k < i ==> v@[k] != x,
        decreases v@.len() - i,
    {
        if v[i] == x {
            return true;
        }
        i = i + 1;
    }
    false
}

/// A composition of a fixed number of parallel tracks; the tracks are mixed
/// down to a single signal.
#[derive(Debug)]
pub struct Timeline {
    pub tracks: Vec<Track>,
}

impl View for Timeline {
    type V = Seq<Seq<ClipInstance>>;

    open spec fn view(&self) -> Seq<Seq<ClipInstance>> {
        Seq::new(self.tracks@.len(), |i: int| self.tracks@[i]@)
    }
}

impl Timeline {
    /// A timeline with the default number of empty tracks.
    pub fn new() -> (r: Timeline)
        ensures
            r@.len() == 4,
            forall|k: int| 0 <= k < 4 ==> r@[k] == Seq::<ClipInstance>::empty(),
    {
        let mut tracks: Vec<Track> = Vec::new();
        tracks.push(Track::new());
        tracks.push(Track::new());
        tracks.push(Track::new());
        tracks.push(Track::new());
        Timeline { tracks }
    }

    /// The timeline length: the greatest track length.
    pub fn len(&self, database: &ClipDatabase) -> (r: crate::Time)
        requires
            self@.len() > 0,
            timeline_len_spec(database@, self@) <= usize::MAX,
        ensures
            r as int == timeline_len_spec(database@, self@),
            forall|k: int|
                0 <= k < self@.len() ==> track_len_spec(database@, #[trigger] self@[k]) <= r,
    {
        proof {
            assert forall|k: int|
                0 <= k < self@.len() implies track_len_spec(database@, #[trigger] self@[k])
                <= timeline_len_spec(database@, self@) by {
                lemma_timeline_len_bounds(database@, self@, k);
            }
        }
        let mut best: usize = 0;
        let mut j: usize = 0;
        while j < self.tracks.len()
            invariant
                0 <= j <= self.tracks.len(),
                timeline_len_spec(database@, self@) <= usize::MAX,
                best as int == timeline_len_spec(database@, self@.take(j as int)),
            decreases self.tracks.len() - j,
        {
            proof {
                lemma_timeline_len_bounds(database@, self@, j as int);
                assert(self@.take(j + 1).drop_last() =~= self@.take(j as int));
                assert(self@.take(j + 1).last() == self@[j as int]);
            }
            let l = self.tracks[j].len(database);
            if l > best {
                best = l;
            }
            j = j + 1;
        }
        proof {
            assert(self@.take(self@.len() as int) =~= self@);
        }
        best
    }

    /// All placements on all tracks, paired with their track number.
    pub fn iter_clips(&self) -> (r: Vec<(usize, ClipInstance)>)
        ensures
            r@ == all_clips(self@, self@.len() as int),
    {
        let mut out: Vec<(usize, ClipInstance)> = Vec::new();
        let mut j: usize = 0;
        while j < self.tracks.len()
            invariant
                0 <= j <= self.tracks.len(),
                out@ == all_clips(self@, j as int),
            decreases self.tracks.len() - j,
        {
            let clips = self.tracks[j].iter_clips();
            let mut k: usize = 0;
            while k < clips.len()
                invariant
                    0 <= k <= clips@.len(),
                    clips@ == self@[j as int],
                    j < self@.len(),
                    out@ == all_clips(self@, j as int) + self@[j as int].take(
                        k as int,
                    ).map_values(|c: ClipInstance| (j as usize, c)),
                decreases clips@.len() - k,
            {
                out.push((j, clips[k]));
                proof {
                    assert(self@[j as int].take(k + 1) =~= self@[j as int].take(k as int).push(
                        self@[j as int][k as int],
                    ));
                    assert(out@ =~= all_clips(self@, j as int) + self@[j as int].take(
                        k + 1,
                    ).map_values(|c: ClipInstance| (j as usize, c)));
                }
                k = k + 1;
            }
            proof {
                assert(self@[j as int].take(self@[j as int].len() as int) =~= self@[j as int]);
            }
            j = j + 1;
        }
        out
    }

    /// Render the mix of all tracks for the given window into `buf`.
    pub fn render(
        &self,
        database: &ClipDatabase,
        start_time: crate::Time,
        buf: &mut Vec<i32>,
    )
        ensures
            final(buf)@.len() == old(buf)@.len(),
            forall|i: int|
                0 <= i < old(buf)@.len() ==> final(buf)@[i] as int == timeline_sample(
                    database@,
                    self@,
                    Seq::<usize>::empty(),
                    start_time as int,
                    start_time as int + i,
                ),
    {
        let exclude: Vec<usize> = Vec::new();
        self.render_exclude(database, start_time, buf, &exclude);
    }

    /// Render the mix of all tracks except the excluded track numbers.
    pub fn render_exclude(
        &self,
        database: &ClipDatabase,
        start_time: crate::Time,
        buf: &mut Vec<i32>,
        exclude: &Vec<usize>,
    )
        ensures
            final(buf)@.len() == old(buf)@.len(),
            forall|i: int|
                0 <= i < old(buf)@.len() ==> final(buf)@[i] as int == timeline_sample(
                    database@,
                    self@,
                    exclude@,
                    start_time as int,
                    start_time as int + i,
                ),
    {
        let n = buf.len();
        let ghost s = start_time as int;
        let mut rendered: Vec<Vec<i32>> = Vec::new();
        let mut j: usize = 0;
        while j < self.tracks.len()
            invariant
                0 <= j <= self.tracks.len(),
                n == old(buf)@.len(),
                buf@.len() == n,
                s == start_time as int,
                forall|k: int| 0 <= k < rendered@.len() ==> rendered@[k]@.len() == n,
                forall|i: int|
                    0 <= i < n ==> mix_sum(rendered.deep_view(), i) == timeline_sum(
                        database@,
                        self@,
                        exclude@,
                        s,
                        s + i,
                        j as int,
                    ),
            decreases self.tracks.len() - j,
        {
            let ghost pre = rendered.deep_view();
            if !contains_usize(exclude, j) {
                let mut track_buf: Vec<i32> = vec![0i32; n];
                self.tracks[j].render(database, start_time, &mut track_buf);
                let ghost tb = track_buf@;
                rendered.push(track_buf);
                proof {
                    let dv = rendered.deep_view();
                    assert(dv.drop_last() =~= pre);
                    assert(dv.last() =~= tb);
                    assert forall|i: int|
                        0 <= i < n implies mix_sum(dv, i) == timeline_sum(
                        database@,
                        self@,
                        exclude@,
                        s,
                        s + i,
                        j + 1,
                    ) by {
                        assert(mix_sum(dv, i) == mix_sum(pre, i) + tb[i]);
                        assert(tb[i] as int == track_sample(database@, self@[j as int], s, s + i));
                    }
                }
            } else {
                proof {
                    assert forall|i: int|
                        0 <= i < n implies mix_sum(rendered.deep_view(), i) == timeline_sum(
                        database@,
                        self@,
                        exclude@,
                        s,
                        s + i,
                        j + 1,
                    ) by {}
                }
            }
            j = j + 1;
        }
        crate::mix(&rendered, buf);
        proof {
            assert forall|i: int|
                0 <= i < n implies buf@[i] as int == timeline_sample(
                database@,
                self@,
                exclude@,
                s,
                s + i,
            ) by {
                assert(buf@[i] as int == mix_sample(rendered.deep_view(), i));
                assert(mix_sum(rendered.deep_view(), i) == timeline_sum(
                    database@,
                    self@,
                    exclude@,
                    s,
                    s + i,
                    self@.len() as int,
                ));
            }
        }
    }

    /// Render the whole timeline from position zero into a fresh buffer of
    /// the timeline's length; empty for a timeline with no tracks.
    pub fn render_all(&self, database: &ClipDatabase) -> (r: Vec<i32>)
        requires
            self@.len() > 0 ==> timeline_len_spec(database@, self@) <= usize::MAX,
        ensures
            self@.len() == 0 ==> r@.len() == 0,
            self@.len() > 0 ==> r@.len() == timeline_len_spec(database@, self@),
            forall|i: int|
                0 <= i < r@.len() ==> r@[i] as int == timeline_sample(
                    database@,
                    self@,
                    Seq::<usize>::empty(),
                    0,
                    i,
                ),
    {
        if self.tracks.len() == 0 {
            return Vec::new();
        }
        let len = self.len(database);
        let mut buf: Vec<i32> = vec![0i32; len];
        self.render(database, 0, &mut buf);
        buf
    }
}

} // verus!
