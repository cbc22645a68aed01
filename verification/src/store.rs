//! Raw storage for the points that make up a glyph contour.
//!
//! Points sit in an ordered sequence but are addressed by identity; a
//! secondary map from identity to position supports the lookup. The map is
//! invalidated (marked dirty) conservatively whenever the sequence is
//! replaced wholesale, and rebuilt lazily on the first subsequent lookup, so
//! a lookup always reflects the current sequence and a stale answer can
//! never be observed.

use vstd::prelude::*;
use std::collections::HashMap;
use crate::point::{EntityId, PathPoint};

verus! {

broadcast use vstd::std_specs::hash::group_hash_axioms;

/// Whether the points of `s` have pairwise distinct raw identities.
pub open spec fn ids_unique(s: Seq<PathPoint>) -> bool {
    forall|i: int, j: int| 0 <= i < j < s.len() ==> s[i].id.raw != s[j].id.raw
}

/// The position of the point with identity `id` in `s`, if any: the first
/// position whose point carries `id`.
pub open spec fn spec_find(s: Seq<PathPoint>, id: EntityId) -> Option<int>
    decreases s.len(),
{
    if s.len() == 0 {
        None
    } else if s[0].id == id {
        Some(0)
    } else {
        match spec_find(s.drop_first(), id) {
            Some(i) => Some(i + 1),
            None => None,
        }
    }
}

/// What `spec_find` answers: a found position holds the identity and is the
/// first such, and a miss means no position holds it.
pub proof fn lemma_spec_find(s: Seq<PathPoint>, id: EntityId)
    ensures
        match spec_find(s, id) {
            Some(i) => 0 <= i < s.len() && s[i].id == id && forall|j: int|
                0 <= j < i ==> s[j].id != id,
            None => forall|j: int| 0 <= j < s.len() ==> s[j].id != id,
        },
    decreases s.len(),
{
    if s.len() > 0 && s[0].id != id {
        let d = s.drop_first();
        lemma_spec_find(d, id);
        assert(forall|j: int| 0 <= j < d.len() ==> d[j] == s[j + 1]);
        match spec_find(s, id) {
            Some(i) => {
                assert(spec_find(d, id) == Some(i - 1));
                assert(d[i - 1].id == id);
                assert forall|j: int| 0 <= j < i implies s[j].id != id by {
                    if j > 0 {
                        assert(d[j - 1] == s[j]);
                    }
                }
            },
            None => {
                assert forall|j: int| 0 <= j < s.len() implies s[j].id != id by {
                    if j > 0 {
                        assert(d[j - 1] == s[j]);
                    }
                }
            },
        }
    }
}

/// Whether the index map `m` is complete for the sequence `s`: every entry
/// points at a position holding its key, and every point's identity has an
/// entry.
pub open spec fn index_complete(m: Map<u64, usize>, s: Seq<PathPoint>) -> bool {
    &&& forall|k: u64|
        m.contains_key(k) ==> #[trigger] m[k] < s.len() && s[m[k] as int].id.raw == k
    &&& forall|i: int| 0 <= i < s.len() ==> m.contains_key(#[trigger] s[i].id.raw)
}

/// The ordered point sequence together with its lazily rebuilt
/// identity-to-position index.
pub struct RawPoints {
    points: Vec<PathPoint>,
    indices: HashMap<u64, usize>,
    needs_rebuild: bool,
}

impl View for RawPoints {
    type V = Seq<PathPoint>;

    closed spec fn view(&self) -> Seq<PathPoint> {
        self.points@
    }
}

impl RawPoints {
    /// Whenever the index is not marked dirty, it is complete for the
    /// sequence.
    pub closed spec fn index_inv(self) -> bool {
        !self.needs_rebuild ==> index_complete(self.indices@, self@)
    }

    /// Internal consistency: identities are pairwise distinct, and the
    /// index, when not marked dirty, is complete for the sequence.
    pub open spec fn inv(self) -> bool {
        &&& ids_unique(self@)
        &&& self.index_inv()
    }

    pub fn new(points: Vec<PathPoint>) -> (r: RawPoints)
        requires
            ids_unique(points@),
        ensures
            r@ == points@,
            r.inv(),
    {
        RawPoints { points, indices: HashMap::new(), needs_rebuild: true }
    }

    pub fn len(&self) -> (r: usize)
        ensures
            r == self@.len(),
    {
        self.points.len()
    }

    pub fn is_empty(&self) -> (r: bool)
        ensures
            r == (self@.len() == 0),
    {
        self.points.len() == 0
    }

    pub fn as_ref(&self) -> (r: &[PathPoint])
        ensures
            r@ == self@,
    {
        self.points.as_slice()
    }

    /// Read one point by position.
    pub fn at(&self, i: usize) -> (r: PathPoint)
        requires
            i < self@.len(),
        ensures
            r == self@[i as int],
    {
        self.points[i]
    }

    /// An independent copy holding the same points. The copy's index starts
    /// dirty and is rebuilt on its own first lookup.
    pub fn snapshot(&self) -> (r: RawPoints)
        ensures
            r@ == self@,
            ids_unique(self@) ==> r.inv(),
    {
        let n = self.points.len();
        let mut v: Vec<PathPoint> = Vec::new();
        let mut i: usize = 0;
        while i < n
            invariant
                n == self@.len(),
                i <= n,
                v@ == self@.subrange(0, i as int),
            decreases n - i,
        {
            v.push(self.points[i]);
            proof {
                assert(v@ =~= self@.subrange(0, i + 1));
            }
            i += 1;
        }
        proof {
            assert(self@.subrange(0, self@.len() as int) =~= self@);
        }
        RawPoints { points: v, indices: HashMap::new(), needs_rebuild: true }
    }

    /// Replace the whole sequence. This marks the index dirty, even when the
    /// new sequence would leave it valid: invalidation is conservative, and
    /// the rebuild is deferred to the next lookup.
    pub fn replace_points(&mut self, points: Vec<PathPoint>)
        requires
            ids_unique(points@),
        ensures
            final(self)@ == points@,
            final(self).inv(),
    {
        self.points = points;
        self.needs_rebuild = true;
    }

    /// Rebuild the index map if it is marked dirty.
    fn rebuild_if_needed(&mut self)
        requires
            old(self).inv(),
        ensures
            final(self)@ == old(self)@,
            final(self).inv(),
            index_complete(final(self).indices@, final(self)@),
    {
        if self.needs_rebuild {
            let mut fresh: HashMap<u64, usize> = HashMap::new();
            let n = self.points.len();
            let mut i: usize = 0;
            while i < n
                invariant
                    n == self@.len(),
                    i <= n,
                    ids_unique(self@),
                    forall|j: int|
                        0 <= j < i ==> fresh@.contains_key(#[trigger] self@[j].id.raw)
                            && fresh@[self@[j].id.raw] == j,
                    forall|k: u64|
                        fresh@.contains_key(k) ==> #[trigger] fresh@[k] < i && self@[fresh@[k] as int].id.raw
                            == k,
                decreases n - i,
            {
                let raw = self.points[i].id.raw;
                fresh.insert(raw, i);
                i += 1;
            }
            self.indices = fresh;
            self.needs_rebuild = false;
        }
    }

    /// Look up a point's position by identity, rebuilding the index first if
    /// it is dirty. The answer always reflects the current sequence.
    pub fn index_for_point(&mut self, item: EntityId) -> (r: Option<usize>)
        requires
            old(self).inv(),
        ensures
            final(self)@ == old(self)@,
            final(self).inv(),
            match r {
                Some(i) => spec_find(old(self)@, item) == Some(i as int),
                None => spec_find(old(self)@, item) is None,
            },
    {
        proof {
            lemma_spec_find(self@, item);
        }
        self.rebuild_if_needed();
        match self.indices.get(&item.raw) {
            Some(i_ref) => {
                let i = *i_ref;
                if self.points[i].id == item {
                    proof {
                        let f = spec_find(self@, item);
                        assert(f matches Some(fi) && self@[fi].id == item);
                        let fi = f->Some_0;
                        assert(self@[fi].id.raw == self@[i as int].id.raw);
                        assert(fi == i as int);
                    }
                    Some(i)
                } else {
                    proof {
                        let f = spec_find(self@, item);
                        if f is Some {
                            let fi = f->Some_0;
                            assert(self@[fi].id == item);
                            assert(self@[fi].id.raw == item.raw);
                            assert(self.indices@.contains_key(self@[fi].id.raw));
                            assert(self.indices@[item.raw] == i);
                            assert(self@[i as int].id.raw == item.raw);
                            assert(fi == i as int);
                        }
                    }
                    None
                }
            },
            None => {
                proof {
                    let f = spec_find(self@, item);
                    if f is Some {
                        let fi = f->Some_0;
                        assert(self@[fi].id == item);
                        assert(self.indices@.contains_key(self@[fi].id.raw));
                    }
                }
                None
            },
        }
    }

    /// Look up a point's position by identity without touching the index
    /// map: a plain scan, for read-only callers.
    pub fn find_linear(&self, item: EntityId) -> (r: Option<usize>)
        ensures
            match r {
                Some(i) => spec_find(self@, item) == Some(i as int),
                None => spec_find(self@, item) is None,
            },
    {
        proof {
            lemma_spec_find(self@, item);
        }
        let n = self.points.len();
        let mut i: usize = 0;
        while i < n
            invariant
                n == self@.len(),
                i <= n,
                forall|j: int| 0 <= j < i ==> self@[j].id != item,
            decreases n - i,
        {
            if self.points[i].id == item {
                proof {
                    lemma_spec_find(self@, item);
                    assert(self@[i as int].id == item);
                    let f = spec_find(self@, item);
                    if f is None {
                        assert(self@[i as int].id != item);
                    }
                    let fi = f->Some_0;
                    assert(self@[fi].id == item);
                    if fi < i as int {
                        assert(self@[fi].id != item);
                    }
                    if fi > i as int {
                        assert(self@[i as int].id != item);
                    }
                }
                return Some(i);
            }
            i += 1;
        }
        None
    }

    /// Read a point by identity.
    pub fn get(&mut self, item: EntityId) -> (r: Option<PathPoint>)
        requires
            old(self).inv(),
        ensures
            final(self)@ == old(self)@,
            final(self).inv(),
            match r {
                Some(p) => spec_find(old(self)@, item) matches Some(i) && old(self)@[i] == p,
                None => spec_find(old(self)@, item) is None,
            },
    {
        match self.index_for_point(item) {
            Some(i) => {
                proof {
                    lemma_spec_find(self@, item);
                }
                Some(self.points[i])
            },
            None => None,
        }
    }

    /// Move the point with identity `item` to `pos`, leaving everything else
    /// unchanged. An absent identity is a silent no-op. The identity of the
    /// updated point cannot change, so the index stays valid and is not
    /// invalidated by this path.
    pub fn set_pos(&mut self, item: EntityId, pos: crate::design_space::DPoint)
        requires
            old(self).inv(),
        ensures
            final(self).inv(),
            final(self)@ == match spec_find(old(self)@, item) {
                Some(i) => old(self)@.update(
                    i,
                    PathPoint { point: pos, ..old(self)@[i] },
                ),
                None => old(self)@,
            },
    {
        proof {
            lemma_spec_find(self@, item);
        }
        match self.index_for_point(item) {
            Some(i) => {
                let ghost old_seq = self@;
                let slot = vstd::std_specs::vec::vec_index_mut(&mut self.points, i);
                slot.point = pos;
                proof {
                    assert(self@ == old_seq.update(
                        i as int,
                        PathPoint { point: pos, ..old_seq[i as int] },
                    ));
                    assert forall|a: int, b: int| 0 <= a < b < self@.len() implies self@[a].id.raw
                        != self@[b].id.raw by {
                        assert(old_seq[a].id == self@[a].id);
                        assert(old_seq[b].id == self@[b].id);
                    }
                    if !self.needs_rebuild {
                        assert forall|ii: int| 0 <= ii < self@.len() implies self.indices@.contains_key(
                            #[trigger] self@[ii].id.raw,
                        ) by {
                            assert(self@[ii].id == old_seq[ii].id);
                        }
                    }
                }
            },
            None => {},
        }
    }
}

} // verus!
