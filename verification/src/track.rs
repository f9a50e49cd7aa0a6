//! Tracks: ordered placements of clips, and the per-track render algorithm.
//!
//! Within a single track overlapping placements do not mix: the placement
//! whose start is reached latest overwrites everything from its start
//! onward, falling to silence past its end, until the next placement start.
//! For the placement already ongoing at the window start, the
//! latest-inserted placement covering that instant wins.

use vstd::prelude::*;

use crate::clip_database::{ClipDatabase, ClipId};

verus! {

/// A placement of a clip at a position on a track. The same clip may be
/// placed many times; insertion order is kept and breaks ties.
#[derive(Debug, Clone, Copy, PartialEq, Eq, Structural)]
pub struct ClipInstance {
    pub time: crate::Time,
    pub clip_id: ClipId,
}

/// The start of a placement, as a timeline position.
pub open spec fn inst_start(c: ClipInstance) -> int {
    c.time as int
}

/// Whether the placement's clip identifier resolves in the store.
pub open spec fn resolvable(db: Seq<Seq<i32>>, c: ClipInstance) -> bool {
    c.clip_id@ < db.len()
}

/// The sample data of the placement's clip.
pub open spec fn clip_data(db: Seq<Seq<i32>>, c: ClipInstance) -> Seq<i32> {
    db[c.clip_id@]
}

/// The first position after the placement ends (meaningful when resolvable).
pub open spec fn inst_end(db: Seq<Seq<i32>>, c: ClipInstance) -> int {
    inst_start(c) + clip_data(db, c).len()
}

/// Whether position `t` falls inside the placement.
pub open spec fn covers(db: Seq<Seq<i32>>, c: ClipInstance, t: int) -> bool {
    resolvable(db, c) && inst_start(c) <= t < inst_end(db, c)
}

/// Ordering key for "the placement with the latest end": placements whose
/// clip does not resolve sort below every resolvable placement.
pub open spec fn inst_end_key(db: Seq<Seq<i32>>, c: ClipInstance) -> int {
    if resolvable(db, c) {
        inst_end(db, c) + 1
    } else {
        0
    }
}

/// The latest-inserted placement among the first `j` that covers `t`.
pub open spec fn clip_at_from(db: Seq<Seq<i32>>, clips: Seq<ClipInstance>, t: int, j: int) -> Option<
    ClipInstance,
>
    decreases j,
{
    if j <= 0 {
        None
    } else if covers(db, clips[j - 1], t) {
        Some(clips[j - 1])
    } else {
        clip_at_from(db, clips, t, j - 1)
    }
}

/// The latest-inserted placement covering `t`, if any.
pub open spec fn clip_at_spec(db: Seq<Seq<i32>>, clips: Seq<ClipInstance>, t: int) -> Option<
    ClipInstance,
> {
    clip_at_from(db, clips, t, clips.len() as int)
}

/// Among the placements from index `j` on whose start is strictly after `t`,
/// the one with the smallest start; the earliest-inserted among equal starts.
pub open spec fn next_clip_from(clips: Seq<ClipInstance>, t: int, j: int) -> Option<ClipInstance>
    decreases clips.len() - j,
{
    if j < 0 || j >= clips.len() {
        None
    } else {
        let rest = next_clip_from(clips, t, j + 1);
        if inst_start(clips[j]) > t {
            match rest {
                None => Some(clips[j]),
                Some(b) => if inst_start(clips[j]) <= inst_start(b) {
                    Some(clips[j])
                } else {
                    Some(b)
                },
            }
        } else {
            rest
        }
    }
}

/// The first placement starting strictly after `t`.
pub open spec fn next_clip_spec(clips: Seq<ClipInstance>, t: int) -> Option<ClipInstance> {
    next_clip_from(clips, t, 0)
}

/// The placement with the latest end among the first `j`; the
/// latest-inserted among equal ends.
pub open spec fn last_clip_from(db: Seq<Seq<i32>>, clips: Seq<ClipInstance>, j: int) -> Option<
    ClipInstance,
>
    decreases j,
{
    if j <= 0 {
        None
    } else {
        let c = clips[j - 1];
        match last_clip_from(db, clips, j - 1) {
            None => Some(c),
            Some(b) => if inst_end_key(db, c) >= inst_end_key(db, b) {
                Some(c)
            } else {
                Some(b)
            },
        }
    }
}

/// The placement with the latest end, if the track has any placement.
pub open spec fn last_clip_spec(db: Seq<Seq<i32>>, clips: Seq<ClipInstance>) -> Option<
    ClipInstance,
> {
    last_clip_from(db, clips, clips.len() as int)
}

/// The track length: the greatest end over placements with resolvable
/// clips, or zero.
pub open spec fn track_len_spec(db: Seq<Seq<i32>>, clips: Seq<ClipInstance>) -> int {
    match last_clip_spec(db, clips) {
        None => 0,
        Some(c) => if resolvable(db, c) {
            inst_end(db, c)
        } else {
            0
        },
    }
}

/// The earliest-inserted placement starting exactly at `v`, from index `j` on.
pub open spec fn first_at_from(clips: Seq<ClipInstance>, v: int, j: int) -> Option<ClipInstance>
    decreases clips.len() - j,
{
    if j < 0 || j >= clips.len() {
        None
    } else if inst_start(clips[j]) == v {
        Some(clips[j])
    } else {
        first_at_from(clips, v, j + 1)
    }
}

/// The earliest-inserted placement starting exactly at `v`.
pub open spec fn first_at(clips: Seq<ClipInstance>, v: int) -> Option<ClipInstance> {
    first_at_from(clips, v, 0)
}

/// A start position `v` contributes content when the placement chosen there
/// (the earliest-inserted one starting at `v`) has a resolvable clip.
pub open spec fn eligible(db: Seq<Seq<i32>>, clips: Seq<ClipInstance>, v: int) -> bool {
    match first_at(clips, v) {
        Some(c) => resolvable(db, c),
        None => false,
    }
}

/// The greatest eligible start in the half-open-from-below range `(s, t]`.
pub open spec fn last_eligible_start(
    db: Seq<Seq<i32>>,
    clips: Seq<ClipInstance>,
    s: int,
    t: int,
) -> Option<int>
    decreases t - s,
{
    if t <= s {
        None
    } else if eligible(db, clips, t) {
        Some(t)
    } else {
        last_eligible_start(db, clips, s, t - 1)
    }
}

/// What a placement starting at `v` plays at position `t >= v`: its sample,
/// or silence past its end.
pub open spec fn sample_of(db: Seq<Seq<i32>>, c: ClipInstance, v: int, t: int) -> i32 {
    if t - v < clip_data(db, c).len() {
        clip_data(db, c)[t - v]
    } else {
        0
    }
}

/// The contribution at position `t` of the placement ongoing at the window
/// start `s`, when no later start has taken over yet.
pub open spec fn ongoing_sample(db: Seq<Seq<i32>>, clips: Seq<ClipInstance>, s: int, t: int) -> i32 {
    match clip_at_spec(db, clips, s) {
        Some(c) => sample_of(db, c, inst_start(c), t),
        None => 0,
    }
}

/// The sample a track plays at position `t` of a render window starting at
/// `s`: the latest start in `(s, t]` dominates from its start onward;
/// otherwise the placement ongoing at `s` plays.
pub open spec fn track_sample(db: Seq<Seq<i32>>, clips: Seq<ClipInstance>, s: int, t: int) -> i32 {
    match last_eligible_start(db, clips, s, t) {
        Some(v) => sample_of(db, first_at(clips, v)->0, v, t),
        None => ongoing_sample(db, clips, s, t),
    }
}

/// `track_sample` with the takeover scan capped at position `cap`; used to
/// state what the render loop has established so far.
spec fn track_sample_upto(
    db: Seq<Seq<i32>>,
    clips: Seq<ClipInstance>,
    s: int,
    t: int,
    cap: int,
) -> i32 {
    match last_eligible_start(db, clips, s, if t <= cap { t } else { cap }) {
        Some(v) => sample_of(db, first_at(clips, v)->0, v, t),
        None => ongoing_sample(db, clips, s, t),
    }
}

/// A position has an earliest placement exactly when some placement starts
/// there.
pub proof fn lemma_first_at_iff(clips: Seq<ClipInstance>, v: int, j: int)
    requires
        0 <= j <= clips.len(),
    ensures
        (first_at_from(clips, v, j) is None) <==> (forall|k: int|
            j <= k < clips.len() ==> inst_start(clips[k]) != v),
        first_at_from(clips, v, j) matches Some(c) ==> exists|k: int|
            j <= k < clips.len() && clips[k] == c && inst_start(c) == v,
    decreases clips.len() - j,
{
    if j < clips.len() {
        lemma_first_at_iff(clips, v, j + 1);
        if inst_start(clips[j]) == v {
            assert(clips[j] == clips[j] && inst_start(clips[j]) == v);
        }
    }
}

/// What the minimum-start scan guarantees: minimality, membership, and that
/// the chosen placement is the earliest-inserted at its start.
pub proof fn lemma_next_clip_props(clips: Seq<ClipInstance>, t: int, j: int)
    requires
        0 <= j <= clips.len(),
    ensures
        next_clip_from(clips, t, j) is None ==> (forall|k: int|
            j <= k < clips.len() ==> inst_start(clips[k]) <= t),
        next_clip_from(clips, t, j) matches Some(c) ==> {
            &&& inst_start(c) > t
            &&& (forall|k: int|
                j <= k < clips.len() && inst_start(clips[k]) > t ==> inst_start(clips[k])
                    >= inst_start(c))
            &&& first_at_from(clips, inst_start(c), j) == Some(c)
        },
    decreases clips.len() - j,
{
    if j < clips.len() {
        lemma_next_clip_props(clips, t, j + 1);
        let rest = next_clip_from(clips, t, j + 1);
        if inst_start(clips[j]) > t {
            match rest {
                None => {},
                Some(b) => {
                    if inst_start(clips[j]) <= inst_start(b) {
                        assert(first_at_from(clips, inst_start(clips[j]), j) == Some(clips[j]));
                    } else {
                        assert(inst_start(clips[j]) != inst_start(b));
                    }
                },
            }
        }
    }
}

/// A placement found by the covering scan indeed covers the position.
pub proof fn lemma_clip_at_covers(db: Seq<Seq<i32>>, clips: Seq<ClipInstance>, t: int, j: int)
    requires
        0 <= j <= clips.len(),
    ensures
        clip_at_from(db, clips, t, j) matches Some(c) ==> covers(db, c, t),
    decreases j,
{
    if j > 0 && !covers(db, clips[j - 1], t) {
        lemma_clip_at_covers(db, clips, t, j - 1);
    }
}

/// Scanning over a range without eligible starts changes nothing.
pub proof fn lemma_les_skip(db: Seq<Seq<i32>>, clips: Seq<ClipInstance>, s: int, a: int, b: int)
    requires
        s <= a <= b,
        forall|v: int| a < v <= b ==> !eligible(db, clips, v),
    ensures
        last_eligible_start(db, clips, s, b) == last_eligible_start(db, clips, s, a),
    decreases b - a,
{
    if a < b {
        lemma_les_skip(db, clips, s, a, b - 1);
    }
}

/// An eligible start with nothing eligible after it is the last one.
pub proof fn lemma_les_hit(db: Seq<Seq<i32>>, clips: Seq<ClipInstance>, s: int, v: int, t: int)
    requires
        s < v <= t,
        eligible(db, clips, v),
        forall|w: int| v < w <= t ==> !eligible(db, clips, w),
    ensures
        last_eligible_start(db, clips, s, t) == Some(v),
    decreases t - v,
{
    if v < t {
        lemma_les_hit(db, clips, s, v, t - 1);
    }
}


/// The track length bounds every resolvable placement's end, and is either
/// zero or attained by one of them.
pub proof fn lemma_track_len_is_max(db: Seq<Seq<i32>>, clips: Seq<ClipInstance>, j: int)
    requires
        0 <= j <= clips.len(),
    ensures
        match last_clip_from(db, clips, j) {
            None => j == 0,
            Some(b) => (exists|k: int| 0 <= k < j && clips[k] == b) && forall|k: int|
                0 <= k < j ==> inst_end_key(db, #[trigger] clips[k]) <= inst_end_key(db, b),
        },
    decreases j,
{
    if j > 0 {
        lemma_track_len_is_max(db, clips, j - 1);
        match last_clip_from(db, clips, j) {
            None => {},
            Some(b) => {
                if b == clips[j - 1] {
                    assert(0 <= j - 1 < j && clips[j - 1] == b);
                }
            },
        }
    }
}

impl ClipInstance {
    pub fn new(time: crate::Time, clip_id: ClipId) -> (r: ClipInstance)
        ensures
            r == (ClipInstance { time, clip_id }),
    {
        ClipInstance { time, clip_id }
    }

    /// The first timeline position at which this placement plays.
    pub fn start(&self) -> (r: crate::Time)
        ensures
            r as int == inst_start(*self),
    {
        self.time
    }

    /// The length of the referenced clip, or absent if it does not resolve.
    pub fn len(&self, database: &ClipDatabase) -> (r: Option<usize>)
        ensures
            resolvable(database@, *self) ==> r == Some(
                clip_data(database@, *self).len() as usize,
            ),
            !resolvable(database@, *self) ==> r is None,
    {
        match database.get(self.clip_id) {
            Some(clip) => Some(clip.len()),
            None => None,
        }
    }

    /// The first timeline position after this placement ends, or absent if
    /// the clip does not resolve.
    pub fn end(&self, database: &ClipDatabase) -> (r: Option<crate::Time>)
        requires
            resolvable(database@, *self) ==> inst_end(database@, *self) <= usize::MAX,
        ensures
            resolvable(database@, *self) ==> r == Some(inst_end(database@, *self) as usize),
            !resolvable(database@, *self) ==> r is None,
    {
        match database.get(self.clip_id) {
            Some(clip) => Some(self.time + clip.len()),
            None => None,
        }
    }
}

/// An ordered list of clip placements. Placements may overlap and may be
/// duplicated; insertion order is load-bearing for the overlap policy.
#[derive(Default, Debug, Clone)]
pub struct Track {
    clips: Vec<ClipInstance>,
}

impl View for Track {
    type V = Seq<ClipInstance>;

    closed spec fn view(&self) -> Seq<ClipInstance> {
        self.clips@
    }
}

impl Track {
    pub fn new() -> (r: Track)
        ensures
            r@ == Seq::<ClipInstance>::empty(),
    {
        Track { clips: Vec::new() }
    }

    /// Place a clip on this track at `time`, appending to insertion order.
    pub fn instantiate_clip(&mut self, clip_id: ClipId, time: crate::Time) -> (r: ClipInstance)
        ensures
            r == (ClipInstance { time, clip_id }),
            final(self)@ == old(self)@.push(ClipInstance { time, clip_id }),
    {
        self.clips.push(ClipInstance { time, clip_id });
        ClipInstance { time, clip_id }
    }

    /// The placements in insertion order.
    pub fn iter_clips(&self) -> (r: &Vec<ClipInstance>)
        ensures
            r@ == self@,
    {
        &self.clips
    }

    /// The placement with the latest end sample; the latest-inserted wins
    /// ties, and placements of unresolvable clips sort below all others.
    pub fn last_clip(&self, database: &ClipDatabase) -> (r: Option<ClipInstance>)
        ensures
            r == last_clip_spec(database@, self@),
    {
        let mut best: Option<ClipInstance> = None;
        let mut key: u128 = 0;
        let mut j: usize = 0;
        while j < self.clips.len()
            invariant
                0 <= j <= self.clips.len(),
                best == last_clip_from(database@, self@, j as int),
                best is Some ==> key == inst_end_key(database@, best->0),
                best is None ==> key == 0,
            decreases self.clips.len() - j,
        {
            let c = self.clips[j];
            let ck: u128 = match database.get(c.clip_id) {
                Some(clip) => c.time as u128 + clip.len() as u128 + 1,
                None => 0,
            };
            match best {
                None => {
                    best = Some(c);
                    key = ck;
                },
                Some(_) => {
                    if ck >= key {
                        best = Some(c);
                        key = ck;
                    }
                },
            }
            j = j + 1;
        }
        best
    }

    /// The earliest-starting placement strictly after `t`; the
    /// earliest-inserted wins ties.
    pub fn next_clip(&self, t: crate::Time) -> (r: Option<ClipInstance>)
        ensures
            r == next_clip_spec(self@, t as int),
    {
        let mut best: Option<ClipInstance> = None;
        let mut j: usize = self.clips.len();
        while j > 0
            invariant
                0 <= j <= self.clips.len(),
                best == next_clip_from(self@, t as int, j as int),
            decreases j,
        {
            j = j - 1;
            let c = self.clips[j];
            if c.time > t {
                best = match best {
                    None => Some(c),
                    Some(b) => if c.time <= b.time {
                        Some(c)
                    } else {
                        Some(b)
                    },
                };
            }
        }
        best
    }

    /// The latest-inserted placement covering `t`, if any.
    pub fn clip_at(&self, database: &ClipDatabase, t: crate::Time) -> (r: Option<ClipInstance>)
        ensures
            r == clip_at_spec(database@, self@, t as int),
    {
        let mut j: usize = self.clips.len();
        while j > 0
            invariant
                0 <= j <= self.clips.len(),
                clip_at_spec(database@, self@, t as int) == clip_at_from(
                    database@,
                    self@,
                    t as int,
                    j as int,
                ),
            decreases j,
        {
            let c = self.clips[j - 1];
            let cov = if c.time <= t {
                match database.get(c.clip_id) {
                    Some(clip) => t - c.time < clip.len(),
                    None => false,
                }
            } else {
                false
            };
            if cov {
                return Some(c);
            }
            j = j - 1;
        }
        None
    }

    /// The track length: the greatest end over placements whose clips
    /// resolve, or zero for a track with none.
    pub fn len(&self, database: &ClipDatabase) -> (r: crate::Time)
        requires
            track_len_spec(database@, self@) <= usize::MAX,
        ensures
            r as int == track_len_spec(database@, self@),
            forall|k: int|
                0 <= k < self@.len() && resolvable(database@, #[trigger] self@[k]) ==> inst_end(
                    database@,
                    self@[k],
                ) <= r,
            r == 0 || exists|k: int|
                0 <= k < self@.len() && resolvable(database@, #[trigger] self@[k]) && inst_end(
                    database@,
                    self@[k],
                ) == r,
    {
        proof {
            lemma_track_len_is_max(database@, self@, self@.len() as int);
        }
        match self.last_clip(database) {
            None => 0,
            Some(c) => match database.get(c.clip_id) {
                Some(clip) => c.time + clip.len(),
                None => 0,
            },
        }
    }

    /// Render the half-open window `[start_time, start_time + buf.len())`
    /// into `buf`: every output sample is exactly `track_sample`.
    pub fn render(&self, database: &ClipDatabase, start_time: crate::Time, buf: &mut Vec<i32>)
        ensures
            final(buf)@.len() == old(buf)@.len(),
            forall|i: int|
                0 <= i < old(buf)@.len() ==> final(buf)@[i] == track_sample(
                    database@,
                    self@,
                    start_time as int,
                    start_time as int + i,
                ),
    {
        let n = buf.len();
        let ghost s = start_time as int;
        let ghost clips = self@;
        let ghost db = database@;

        let mut i: usize = 0;
        while i < n
            invariant
                0 <= i <= n,
                buf@.len() == n,
                forall|k: int| 0 <= k < i ==> buf@[k] == 0i32,
            decreases n - i,
        {
            buf[i] = 0;
            i = i + 1;
        }

        // The placement already ongoing at the window start plays first.
        match self.clip_at(database, start_time) {
            Some(c) => {
                proof {
                    lemma_clip_at_covers(db, clips, s, clips.len() as int);
                }
                match database.get(c.clip_id) {
                    Some(clip) => {
                        let off = start_time - c.time;
                        let avail = clip.len() - off;
                        let m = if n < avail {
                            n
                        } else {
                            avail
                        };
                        let mut j: usize = 0;
                        while j < m
                            invariant
                                0 <= j <= m <= n,
                                m <= avail,
                                clip@.len() <= usize::MAX,
                                buf@.len() == n,
                                off as int == s - inst_start(c),
                                avail as int == clip_data(db, c).len() - (s - inst_start(c)),
                                clip@ == clip_data(db, c),
                                off + avail == clip@.len(),
                                forall|k: int| 0 <= k < j ==> buf@[k] == clip_data(db, c)[off + k],
                                forall|k: int| j <= k < n ==> buf@[k] == 0i32,
                            decreases m - j,
                        {
                            proof {
                                assert(off + j < clip@.len());
                            }
                            buf[j] = clip.data[off + j];
                            j = j + 1;
                        }
                    },
                    None => {
                        proof {
                            assert(false);
                        }
                    },
                }
            },
            None => {},
        }
        proof {
            assert forall|k: int| 0 <= k < n implies buf@[k] == ongoing_sample(db, clips, s, s + k) by {}
        }

        // Later starts take over from their start onward.
        let mut t = start_time;
        loop
            invariant
                buf@.len() == n,
                s <= t as int <= s + n,
                self@ == clips,
                database@ == db,
                start_time as int == s,
                forall|k: int|
                    0 <= k < n ==> buf@[k] == track_sample_upto(db, clips, s, s + k, t as int),
            ensures
                buf@.len() == n,
                forall|k: int| 0 <= k < n ==> buf@[k] == track_sample(db, clips, s, s + k),
            decreases n + start_time - t,
        {
            let ghost t0 = t as int;
            match self.next_clip(t) {
                None => {
                    proof {
                        lemma_next_clip_props(clips, t0, 0);
                        assert forall|k: int|
                            0 <= k < n implies buf@[k] == track_sample(db, clips, s, s + k) by {
                            if t0 < s + k {
                                assert forall|w: int| t0 < w <= s + k implies !eligible(
                                    db,
                                    clips,
                                    w,
                                ) by {
                                    lemma_first_at_iff(clips, w, 0);
                                }
                                lemma_les_skip(db, clips, s, t0, s + k);
                            }
                        }
                    }
                    break ;
                },
                Some(c) => {
                    proof {
                        lemma_next_clip_props(clips, t0, 0);
                    }
                    let v = c.time;
                    if v - start_time > n {
                        proof {
                            assert forall|k: int|
                                0 <= k < n implies buf@[k] == track_sample(db, clips, s, s + k) by {
                                if t0 < s + k {
                                    assert forall|w: int| t0 < w <= s + k implies !eligible(
                                        db,
                                        clips,
                                        w,
                                    ) by {
                                        lemma_first_at_iff(clips, w, 0);
                                    }
                                    lemma_les_skip(db, clips, s, t0, s + k);
                                }
                            }
                        }
                        break ;
                    }
                    let ghost vv = v as int;
                    let p = v - start_time;
                    match database.get(c.clip_id) {
                        Some(clip) => {
                            let mut j: usize = p;
                            while j < n
                                invariant
                                    p <= j <= n,
                                    buf@.len() == n,
                                    p as int == vv - s,
                                    clip@ == clip_data(db, c),
                                    forall|k: int|
                                        0 <= k < p ==> buf@[k] == track_sample_upto(
                                            db,
                                            clips,
                                            s,
                                            s + k,
                                            t0,
                                        ),
                                    forall|k: int|
                                        p <= k < j ==> buf@[k] == sample_of(db, c, vv, s + k),
                                    forall|k: int|
                                        j <= k < n ==> buf@[k] == track_sample_upto(
                                            db,
                                            clips,
                                            s,
                                            s + k,
                                            t0,
                                        ),
                                decreases n - j,
                            {
                                let rel = j - p;
                                if rel < clip.len() {
                                    buf[j] = clip.data[rel];
                                } else {
                                    buf[j] = 0;
                                }
                                j = j + 1;
                            }
                            proof {
                                assert(first_at(clips, vv) == Some(c));
                            }
                            proof {
                                assert(eligible(db, clips, vv));
                                assert forall|k: int|
                                    0 <= k < n implies buf@[k] == track_sample_upto(
                                    db,
                                    clips,
                                    s,
                                    s + k,
                                    vv,
                                ) by {
                                    if k < p {
                                        if t0 < s + k {
                                            assert forall|w: int| t0 < w <= s + k implies !eligible(
                                                db,
                                                clips,
                                                w,
                                            ) by {
                                                lemma_first_at_iff(clips, w, 0);
                                            }
                                            lemma_les_skip(db, clips, s, t0, s + k);
                                        }
                                    } else {
                                        assert(last_eligible_start(db, clips, s, vv) == Some(vv));
                                    }
                                }
                            }
                        },
                        None => {
                            // The clip does not resolve: the start is skipped.
                            proof {
                                assert(!eligible(db, clips, vv));
                                assert forall|k: int|
                                    0 <= k < n implies buf@[k] == track_sample_upto(
                                    db,
                                    clips,
                                    s,
                                    s + k,
                                    vv,
                                ) by {
                                    if t0 < s + k {
                                        let cap = if s + k <= vv {
                                            s + k
                                        } else {
                                            vv
                                        };
                                        assert forall|w: int| t0 < w <= cap implies !eligible(
                                            db,
                                            clips,
                                            w,
                                        ) by {
                                            if w < vv {
                                                lemma_first_at_iff(clips, w, 0);
                                            }
                                        }
                                        lemma_les_skip(db, clips, s, t0, cap);
                                    }
                                }
                            }
                        },
                    }
                    t = v;
                },
            }
        }
    }

    /// Render the whole track from position zero: `len` samples, or an
    /// empty buffer for a track with no resolvable placement.
    pub fn render_all(&self, database: &ClipDatabase) -> (r: Vec<i32>)
        requires
            track_len_spec(database@, self@) <= usize::MAX,
        ensures
            r@.len() == track_len_spec(database@, self@),
            forall|i: int|
                0 <= i < r@.len() ==> r@[i] == track_sample(database@, self@, 0, i),
    {
        let end = self.len(database);
        let mut buf: Vec<i32> = Vec::new();
        let mut i: usize = 0;
        while i < end
            invariant
                0 <= i <= end,
                buf@.len() == i,
            decreases end - i,
        {
            buf.push(0);
            i = i + 1;
        }
        self.render(database, 0, &mut buf);
        buf
    }

    /// Move the earliest-inserted placement of `clip_id` by `delta_samples`,
    /// clamping the new position to the representable non-negative range.
    /// A track without such a placement is left unchanged.
    pub fn move_clip(&mut self, clip_id: ClipId, delta_samples: i32)
        ensures
            final(self)@ == track_after_move(old(self)@, clip_id, delta_samples as int),
    {
        let mut j: usize = 0;
        while j < self.clips.len()
            invariant
                0 <= j <= self.clips.len(),
                self@ == old(self)@,
                find_clip_from(old(self)@, clip_id, 0) == find_clip_from(
                    old(self)@,
                    clip_id,
                    j as int,
                ),
            decreases self.clips.len() - j,
        {
            let c = self.clips[j];
            if c.clip_id == clip_id {
                let moved = c.time as i128 + delta_samples as i128;
                let new_time: usize = if moved < 0 {
                    0
                } else if moved > usize::MAX as i128 {
                    usize::MAX
                } else {
                    moved as usize
                };
                self.clips[j] = ClipInstance { time: new_time, clip_id: c.clip_id };
                proof {
                    assert(find_clip_from(old(self)@, clip_id, j as int) == Some(j as int));
                    assert(self@ =~= track_after_move(old(self)@, clip_id, delta_samples as int));
                }
                return ;
            }
            j = j + 1;
        }
    }
}

/// The index of the earliest-inserted placement of `id`, from index `j` on.
pub open spec fn find_clip_from(clips: Seq<ClipInstance>, id: ClipId, j: int) -> Option<int>
    decreases clips.len() - j,
{
    if j < 0 || j >= clips.len() {
        None
    } else if clips[j].clip_id == id {
        Some(j)
    } else {
        find_clip_from(clips, id, j + 1)
    }
}

/// A position shifted by a drag, clamped to the representable non-negative
/// range.
pub open spec fn moved_time(t: int, delta: int) -> int {
    if t + delta < 0 {
        0
    } else if t + delta > usize::MAX {
        usize::MAX as int
    } else {
        t + delta
    }
}

/// The track after moving the earliest-inserted placement of `id` by
/// `delta`.
pub open spec fn track_after_move(clips: Seq<ClipInstance>, id: ClipId, delta: int) -> Seq<
    ClipInstance,
> {
    match find_clip_from(clips, id, 0) {
        None => clips,
        Some(k) => clips.update(
            k,
            ClipInstance { time: moved_time(inst_start(clips[k]), delta) as usize, clip_id: id },
        ),
    }
}

} // verus!
