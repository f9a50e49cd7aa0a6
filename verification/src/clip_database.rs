//! The content store for clips: issues stable identifiers and resolves them.

use vstd::prelude::*;

use crate::clip::Clip;

verus! {

/// A stable clip identifier, unique within one `ClipDatabase` for its whole
/// lifetime. Identifiers are allocated by a monotonic counter and slots are
/// never reused, so identifiers stay valid across further inserts and across
/// a save/load round trip.
#[derive(Debug, PartialEq, Eq, Structural, Copy, Clone, Hash)]
pub struct ClipId(pub usize);

impl View for ClipId {
    type V = int;

    open spec fn view(&self) -> int {
        self.0 as int
    }
}

/// The repository of clips. Viewed as the sequence of clip data, indexed by
/// clip identifier; `add` appends, nothing is ever removed.
#[derive(Debug)]
pub struct ClipDatabase {
    clips: Vec<Clip>,
}

impl View for ClipDatabase {
    type V = Seq<Seq<i32>>;

    closed spec fn view(&self) -> Seq<Seq<i32>> {
        Seq::new(self.clips@.len(), |i: int| self.clips@[i]@)
    }
}

impl ClipDatabase {
    pub fn new() -> (r: Self)
        ensures
            r@ == Seq::<Seq<i32>>::empty(),
    {
        Self { clips: Vec::new() }
    }

    /// Store a clip and return its fresh identifier: the next counter value.
    pub fn add(&mut self, clip: Clip) -> (id: ClipId)
        ensures
            id@ == old(self)@.len(),
            final(self)@ == old(self)@.push(clip@),
    {
        let id = ClipId(self.clips.len());
        self.clips.push(clip);
        proof {
            assert(self@ =~= old(self)@.push(self.clips@.last()@));
        }
        id
    }

    /// Resolve an identifier; absent exactly when the identifier was never
    /// issued by this database.
    pub fn get(&self, id: ClipId) -> (r: Option<&Clip>)
        ensures
            id@ < self@.len() ==> r is Some && r->0@ == self@[id@],
            id@ >= self@.len() ==> r is None,
    {
        if id.0 < self.clips.len() {
            Some(&self.clips[id.0])
        } else {
            None
        }
    }

    /// The number of clips stored so far (also the next identifier).
    pub fn len(&self) -> (r: usize)
        ensures
            r == self@.len(),
    {
        self.clips.len()
    }
}

} // verus!
