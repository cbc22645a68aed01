//! The contour container: an identity-indexed point store, the closed/open
//! flag, and an optional trailing point, with the navigation and mutation
//! operations of the editor core.

use vstd::prelude::*;
use crate::design_space::DPoint;
use crate::point::{EntityId, PathPoint, PointType};
use crate::store::{ids_unique, spec_find, lemma_spec_find, RawPoints};
use crate::segment::{valid_tail, lemma_valid_tail_off_pairs, Segment};

verus! {

/// The sequence left-rotated by `k`: element `k` comes first.
pub open spec fn rotate_left(s: Seq<PathPoint>, k: int) -> Seq<PathPoint> {
    s.subrange(k, s.len() as int) + s.subrange(0, k)
}

/// The position of the first on-curve point of `s`, if any.
pub open spec fn spec_first_on(s: Seq<PathPoint>) -> Option<int>
    decreases s.len(),
{
    if s.len() == 0 {
        None
    } else if s[0].spec_is_on_curve() {
        Some(0)
    } else {
        match spec_first_on(s.drop_first()) {
            Some(i) => Some(i + 1),
            None => None,
        }
    }
}

/// What `spec_first_on` answers: a found position is on-curve and the first
/// such, and a miss means every point is off-curve.
pub proof fn lemma_spec_first_on(s: Seq<PathPoint>)
    ensures
        match spec_first_on(s) {
            Some(i) => 0 <= i < s.len() && s[i].spec_is_on_curve() && forall|j: int|
                0 <= j < i ==> !s[j].spec_is_on_curve(),
            None => forall|j: int| 0 <= j < s.len() ==> !s[j].spec_is_on_curve(),
        },
    decreases s.len(),
{
    if s.len() > 0 && !s[0].spec_is_on_curve() {
        let d = s.drop_first();
        lemma_spec_first_on(d);
        assert(forall|j: int| 0 <= j < d.len() ==> d[j] == s[j + 1]);
        match spec_first_on(s) {
            Some(i) => {
                assert(d[i - 1] == s[i]);
                assert forall|j: int| 0 <= j < i implies !s[j].spec_is_on_curve() by {
                    if j > 0 {
                        assert(d[j - 1] == s[j]);
                    }
                }
            },
            None => {
                assert forall|j: int| 0 <= j < s.len() implies !s[j].spec_is_on_curve() by {
                    if j > 0 {
                        assert(d[j - 1] == s[j]);
                    }
                }
            },
        }
    }
}

/// The position of the last on-curve point of `s` strictly before
/// position `k`, if any.
pub open spec fn spec_last_on_before(s: Seq<PathPoint>, k: int) -> Option<int>
    decreases k,
{
    if k <= 0 {
        None
    } else if s[k - 1].spec_is_on_curve() {
        Some(k - 1)
    } else {
        spec_last_on_before(s, k - 1)
    }
}

/// The stored sequence of a closed contour, normalized so that an on-curve
/// point is last: rotated left just past the first on-curve point when the
/// last is off-curve. A sequence without an on-curve point is left alone.
pub open spec fn normalize_closed(s: Seq<PathPoint>) -> Seq<PathPoint> {
    if s.len() == 0 || s.last().spec_is_on_curve() {
        s
    } else {
        match spec_first_on(s) {
            Some(k) => rotate_left(s, k + 1),
            None => s,
        }
    }
}

/// Scoping to a contour depends only on identities, which a position update
/// leaves in place.
pub proof fn lemma_scoped_same_ids(s: Seq<PathPoint>, s2: Seq<PathPoint>, praw: u64)
    requires
        s2.len() == s.len(),
        forall|i: int| 0 <= i < s.len() ==> (#[trigger] s2[i]).id == s[i].id,
        forall|i: int| 0 <= i < s.len() ==> (#[trigger] s[i]).id.parent == praw,
    ensures
        forall|i: int| 0 <= i < s2.len() ==> (#[trigger] s2[i]).id.parent == praw,
{
    assert forall|i: int| 0 <= i < s2.len() implies (#[trigger] s2[i]).id.parent == praw by {
        assert(s2[i].id == s[i].id);
        assert(s[i].id.parent == praw);
    }
}

/// Scoping to a contour survives a left-rotation.
pub proof fn lemma_rotate_scoped(s: Seq<PathPoint>, k: int, praw: u64)
    requires
        0 <= k <= s.len(),
        forall|i: int| 0 <= i < s.len() ==> (#[trigger] s[i]).id.parent == praw,
    ensures
        forall|i: int|
            0 <= i < rotate_left(s, k).len() ==> (#[trigger] rotate_left(s, k)[i]).id.parent
                == praw,
{
    let r = rotate_left(s, k);
    let n = s.len() as int;
    assert forall|i: int| 0 <= i < r.len() implies (#[trigger] r[i]).id.parent == praw by {
        if i < n - k {
            assert(r[i] == s[k + i]);
        } else {
            assert(r[i] == s[i - (n - k)]);
        }
    }
}

/// Identity distinctness survives a left-rotation.
pub proof fn lemma_rotate_unique(s: Seq<PathPoint>, k: int)
    requires
        0 <= k <= s.len(),
        ids_unique(s),
    ensures
        ids_unique(rotate_left(s, k)),
        rotate_left(s, k).len() == s.len(),
{
    let r = rotate_left(s, k);
    let n = s.len() as int;
    assert forall|i: int, j: int| 0 <= i < j < r.len() implies r[i].id.raw != r[j].id.raw by {
        let oi = if i < n - k {
            k + i
        } else {
            i - (n - k)
        };
        let oj = if j < n - k {
            k + j
        } else {
            j - (n - k)
        };
        assert(r[i] == s[oi]);
        assert(r[j] == s[oj]);
        assert(oi != oj);
    }
}

/// Whether the contour representation is well formed: never empty, with the
/// canonical start on-curve (the last stored point when closed, the first
/// when open), and every run of off-curve points a complete group of two
/// closed by an on-curve point.
pub open spec fn contour_ok(points: Seq<PathPoint>, closed: bool) -> bool {
    &&& points.len() > 0
    &&& if closed {
        points.last().spec_is_on_curve() && valid_tail(points, 0)
    } else {
        points[0].spec_is_on_curve() && valid_tail(points, 1)
    }
}

/// The points of a contour in canonical order: a closed contour starts at
/// its last stored point, an open one at its first.
pub open spec fn canonical_order(points: Seq<PathPoint>, closed: bool) -> Seq<PathPoint> {
    if closed && points.len() > 0 {
        seq![points.last()] + points.drop_last()
    } else {
        points
    }
}

/// The ordered, identity-indexed list of points of one contour, together
/// with its closed/open flag and an optional trailing (not yet committed)
/// point.
pub struct PathPoints {
    path_id: EntityId,
    points: RawPoints,
    trailing: Option<DPoint>,
    closed: bool,
}

impl PathPoints {
    /// The stored point sequence.
    pub closed spec fn spec_points(self) -> Seq<PathPoint> {
        self.points@
    }

    pub closed spec fn spec_closed(self) -> bool {
        self.closed
    }

    pub closed spec fn spec_id(self) -> EntityId {
        self.path_id
    }

    pub closed spec fn spec_trailing(self) -> Option<DPoint> {
        self.trailing
    }

    /// The store's own invariant: see `RawPoints::inv`.
    pub closed spec fn store_inv(self) -> bool {
        self.points.inv()
    }

    /// Internal consistency: the identity index is sound, identities are
    /// pairwise distinct, and every point is scoped to this contour.
    pub open spec fn inv(self) -> bool {
        &&& self.store_inv()
        &&& forall|i: int|
            0 <= i < self.spec_points().len() ==> (#[trigger] self.spec_points()[i]).id.parent
                == self.spec_id().raw
    }

    /// The shape invariant of a valid contour; see `contour_ok`.
    pub open spec fn wf(self) -> bool {
        contour_ok(self.spec_points(), self.spec_closed())
    }

    /// A new contour: a single starting on-curve point, open, no trailing
    /// point.
    pub fn new(path_id: EntityId, start_point: DPoint) -> (r: PathPoints)
        ensures
            r.spec_points() == seq![
                PathPoint {
                    id: EntityId { parent: path_id.raw, raw: 0 },
                    point: start_point,
                    typ: PointType::OnCurveCorner,
                },
            ],
            !r.spec_closed(),
            r.spec_trailing() is None,
            r.spec_id() == path_id,
            r.inv(),
            r.wf(),
    {
        let start = PathPoint::on_curve(EntityId { parent: path_id.raw, raw: 0 }, start_point);
        let mut v: Vec<PathPoint> = Vec::new();
        v.push(start);
        proof {
            assert(v@ =~= seq![start]);
        }
        let r = PathPoints {
            path_id,
            points: RawPoints::new(v),
            closed: false,
            trailing: None,
        };
        r
    }

    /// Reconstruct a contour in bulk from a raw ordered point list, a
    /// trailing point, and the closed flag. A closed contour whose last
    /// stored point is off-curve is rotated left until an on-curve point is
    /// last, so the canonical start is on-curve.
    pub fn from_raw_parts(
        path_id: EntityId,
        points: Vec<PathPoint>,
        trailing: Option<DPoint>,
        closed: bool,
    ) -> (r: PathPoints)
        requires
            points@.len() > 0,
            forall|i: int|
                0 <= i < points@.len() ==> (#[trigger] points@[i]).id.parent == path_id.raw,
            ids_unique(points@),
            !closed ==> points@[0].spec_is_on_curve(),
            closed ==> spec_first_on(points@) is Some,
        ensures
            r.spec_points() == if closed {
                normalize_closed(points@)
            } else {
                points@
            },
            r.spec_closed() == closed,
            r.spec_trailing() == trailing,
            r.spec_id() == path_id,
            r.inv(),
            !closed && valid_tail(points@, 1) ==> r.wf(),
            closed && points@.last().spec_is_on_curve() && valid_tail(points@, 0) ==> r.wf(),
    {
        proof {
            lemma_spec_first_on(points@);
        }
        let stored: Vec<PathPoint> = if closed && !points[points.len() - 1].is_on_curve() {
            let ghost fo = spec_first_on(points@)->Some_0;
            let n = points.len();
            let mut k: usize = 0;
            while !points[k].is_on_curve()
                invariant
                    n == points@.len(),
                    points@.len() > 0,
                    spec_first_on(points@) is Some,
                    fo == spec_first_on(points@)->Some_0,
                    0 <= fo < points@.len(),
                    points@[fo].spec_is_on_curve(),
                    k <= fo,
                    forall|j: int| 0 <= j < k ==> !points@[j].spec_is_on_curve(),
                decreases points@.len() - k,
            {
                proof {
                    assert(k as int != fo);
                    assert(k < n);
                }
                k += 1;
            }
            proof {
                assert(k as int == fo);
                lemma_rotate_unique(points@, k as int + 1);
                let s = points@;
                let r = rotate_left(s, k as int + 1);
                let n = s.len() as int;
                assert forall|i: int| 0 <= i < r.len() implies (#[trigger] r[i]).id.parent
                    == path_id.raw by {
                    if i < n - (k + 1) {
                        assert(r[i] == s[k + 1 + i]);
                    } else {
                        assert(r[i] == s[i - (n - (k + 1))]);
                    }
                }
            }
            rotate_left_vec(points.as_slice(), k + 1)
        } else {
            points
        };
        PathPoints { path_id, points: RawPoints::new(stored), trailing, closed }
    }

    /// An independent copy of the contour: the same points, closed flag,
    /// trailing point and identity. Snapshots are how an undo history keeps
    /// earlier states; the copy and the original then evolve separately.
    pub fn snapshot(&self) -> (r: PathPoints)
        ensures
            r.spec_points() == self.spec_points(),
            r.spec_closed() == self.spec_closed(),
            r.spec_trailing() == self.spec_trailing(),
            r.spec_id() == self.spec_id(),
            self.inv() ==> r.inv(),
    {
        PathPoints {
            path_id: self.path_id,
            points: self.points.snapshot(),
            trailing: self.trailing,
            closed: self.closed,
        }
    }

    pub fn len(&self) -> (r: usize)
        ensures
            r == self.spec_points().len(),
    {
        self.points.len()
    }

    pub fn closed(&self) -> (r: bool)
        ensures
            r == self.spec_closed(),
    {
        self.closed
    }

    pub fn id(&self) -> (r: EntityId)
        ensures
            r == self.spec_id(),
    {
        self.path_id
    }

    pub fn trailing(&self) -> (r: Option<&DPoint>)
        ensures
            match r {
                Some(p) => self.spec_trailing() == Some(*p),
                None => self.spec_trailing() is None,
            },
    {
        self.trailing.as_ref()
    }

    pub fn clear_trailing(&mut self)
        ensures
            final(self).spec_trailing() is None,
            final(self).spec_points() == old(self).spec_points(),
            final(self).spec_closed() == old(self).spec_closed(),
            final(self).spec_id() == old(self).spec_id(),
            old(self).inv() ==> final(self).inv(),
    {
        self.trailing = None;
    }

    pub fn set_trailing(&mut self, trailing: DPoint)
        ensures
            final(self).spec_trailing() == Some(trailing),
            final(self).spec_points() == old(self).spec_points(),
            final(self).spec_closed() == old(self).spec_closed(),
            final(self).spec_id() == old(self).spec_id(),
            old(self).inv() ==> final(self).inv(),
    {
        self.trailing = Some(trailing);
    }

    pub fn as_slice(&self) -> (r: &[PathPoint])
        ensures
            r@ == self.spec_points(),
    {
        self.points.as_ref()
    }

    /// The stored index of the canonical start point.
    pub open spec fn spec_first_idx(self) -> int {
        if self.spec_closed() {
            self.spec_points().len() - 1
        } else {
            0
        }
    }

    fn first_idx(&self) -> (r: usize)
        requires
            self.spec_points().len() > 0,
        ensures
            r as int == self.spec_first_idx(),
    {
        if self.closed {
            self.points.len() - 1
        } else {
            0
        }
    }

    /// The canonical start point: the last stored point of a closed
    /// contour, the first of an open one.
    pub fn start_point(&self) -> (r: &PathPoint)
        requires
            self.spec_points().len() > 0,
        ensures
            *r == self.spec_points()[self.spec_first_idx()],
            *r == canonical_order(self.spec_points(), self.spec_closed())[0],
    {
        let i = self.first_idx();
        let s = self.points.as_ref();
        &s[i]
    }

    /// The trailing on-curve point, if this contour is not closed.
    pub fn trailing_point_in_open_path(&self) -> (r: Option<&PathPoint>)
        ensures
            match r {
                Some(p) => !self.spec_closed() && self.spec_points().len() > 0 && *p
                    == self.spec_points().last(),
                None => self.spec_closed() || self.spec_points().len() == 0,
            },
    {
        if !self.closed {
            self.points.as_ref().last()
        } else {
            None
        }
    }

    /// The stored index holding the last on-curve point in canonical order:
    /// the on-curve point immediately preceding the canonical start of a
    /// closed contour (walking back over any control points), the last
    /// stored point of an open one, and the start itself when no other
    /// on-curve point exists (a length-one contour).
    pub open spec fn spec_last_on_curve_idx(self) -> int {
        if self.spec_closed() {
            match spec_last_on_before(self.spec_points(), self.spec_points().len() - 1) {
                Some(j) => j,
                None => self.spec_points().len() - 1,
            }
        } else {
            self.spec_points().len() - 1
        }
    }

    /// The last on-curve point; see `spec_last_on_curve_idx`.
    pub fn last_on_curve_point(&self) -> (r: PathPoint)
        requires
            self.spec_points().len() > 0,
        ensures
            r == self.spec_points()[self.spec_last_on_curve_idx()],
    {
        if !self.closed {
            return self.points.at(self.points.len() - 1);
        }
        let ghost s = self.spec_points();
        let n = self.points.len();
        let mut j: usize = n - 1;
        while j > 0
            invariant
                n == s.len(),
                s == self.spec_points(),
                self.spec_closed(),
                0 < n,
                j < n,
                spec_last_on_before(s, n - 1) == spec_last_on_before(s, j as int),
            decreases j,
        {
            if self.points.at(j - 1).is_on_curve() {
                proof {
                    assert(spec_last_on_before(s, j as int) == Some(j - 1));
                }
                return self.points.at(j - 1);
            }
            j -= 1;
        }
        proof {
            assert(spec_last_on_before(s, 0) is None);
        }
        self.points.at(n - 1)
    }

    /// Whether the final segment in canonical order is a cubic.
    pub fn last_segment_is_curve(&self) -> (r: bool)
        ensures
            r == (self.spec_points().len() > 2 && !self.spec_points()[self.spec_points().len()
                - 2].spec_is_on_curve()),
    {
        let len = self.points.len();
        len > 2 && !self.points.at(len - 2).is_on_curve()
    }

    /// The points in canonical order: a closed contour yields its last
    /// stored point (the canonical start) first.
    pub fn iter_points(&self) -> (r: Vec<PathPoint>)
        ensures
            r@ == canonical_order(self.spec_points(), self.spec_closed()),
    {
        let s = self.points.as_ref();
        let mut v: Vec<PathPoint> = Vec::new();
        if self.closed && s.len() > 0 {
            v.push(s[s.len() - 1]);
            let mut i: usize = 0;
            while i < s.len() - 1
                invariant
                    s@.len() > 0,
                    i <= s@.len() - 1,
                    v@ == seq![s@.last()] + s@.subrange(0, i as int),
                decreases s@.len() - 1 - i,
            {
                v.push(s[i]);
                proof {
                    assert(v@ =~= seq![s@.last()] + s@.subrange(0, i + 1));
                }
                i += 1;
            }
            proof {
                assert(s@.subrange(0, s@.len() - 1) =~= s@.drop_last());
            }
        } else {
            let mut i: usize = 0;
            while i < s.len()
                invariant
                    i <= s@.len(),
                    v@ == s@.subrange(0, i as int),
                decreases s@.len() - i,
            {
                v.push(s[i]);
                proof {
                    assert(v@ =~= s@.subrange(0, i + 1));
                }
                i += 1;
            }
            proof {
                assert(s@.subrange(0, s@.len() as int) =~= s@);
            }
        }
        v
    }

    /// Append a new on-curve corner point. The contour must not be closed.
    ///
    /// The new point's identity is fresh: strictly larger in its raw part
    /// than every identity already stored.
    pub fn push_on_curve(&mut self, point: DPoint) -> (r: EntityId)
        requires
            old(self).inv(),
            !old(self).spec_closed(),
            forall|i: int|
                0 <= i < old(self).spec_points().len() ==> (#[trigger] old(self).spec_points()[i]).id.raw
                    < u64::MAX,
        ensures
            final(self).inv(),
            final(self).spec_points() == old(self).spec_points().push(
                PathPoint { id: r, point, typ: PointType::OnCurveCorner },
            ),
            final(self).spec_closed() == old(self).spec_closed(),
            final(self).spec_trailing() == old(self).spec_trailing(),
            final(self).spec_id() == old(self).spec_id(),
            r.parent == old(self).spec_id().raw,
            forall|i: int|
                0 <= i < old(self).spec_points().len() ==> (#[trigger] old(self).spec_points()[i]).id.raw
                    < r.raw,
            old(self).wf() ==> final(self).wf(),
    {
        let raw = self.fresh_raw();
        let id = EntityId { parent: self.path_id.raw, raw };
        let pt = PathPoint::on_curve(id, point);
        let mut v = copy_points(self.points.as_ref());
        v.push(pt);
        let ghost pre = *self;
        proof {
            assert(v@ == pre.spec_points().push(pt));
            assert forall|a: int, b: int| 0 <= a < b < v@.len() implies v@[a].id.raw
                != v@[b].id.raw by {
                assert(v@[a] == pre.spec_points()[a]);
                if b < v@.len() - 1 {
                    assert(v@[b] == pre.spec_points()[b]);
                } else {
                    assert(v@[b] == pt);
                    assert(pre.spec_points()[a].id.raw < raw);
                }
            }
        }
        self.points.replace_points(v);
        proof {
            if pre.wf() {
                crate::segment::lemma_valid_tail_push_on(pre.spec_points(), pt, 1);
            }
        }
        id
    }

    /// A raw identity strictly larger than every stored one.
    fn fresh_raw(&self) -> (r: u64)
        requires
            forall|i: int|
                0 <= i < self.spec_points().len() ==> (#[trigger] self.spec_points()[i]).id.raw
                    < u64::MAX,
        ensures
            forall|i: int|
                0 <= i < self.spec_points().len() ==> (#[trigger] self.spec_points()[i]).id.raw
                    < r,
    {
        let s = self.points.as_ref();
        let mut m: u64 = 0;
        let mut i: usize = 0;
        while i < s.len()
            invariant
                i <= s@.len(),
                forall|j: int| 0 <= j < s@.len() ==> (#[trigger] s@[j]).id.raw < u64::MAX,
                forall|j: int| 0 <= j < i ==> (#[trigger] s@[j]).id.raw < m || s@[j].id.raw == m,
                m == 0 || exists|j: int| 0 <= j < i && (#[trigger] s@[j]).id.raw == m,
            decreases s@.len() - i,
        {
            if s[i].id.raw > m {
                m = s[i].id.raw;
            }
            i += 1;
        }
        m + 1
    }

    /// Close the contour: rotate the stored sequence left by one, making the
    /// former first point the canonical start (last in storage), and set the
    /// closed flag. Returns the identity of the new start point.
    pub fn close(&mut self) -> (r: EntityId)
        requires
            old(self).inv(),
            !old(self).spec_closed(),
            old(self).spec_points().len() > 0,
        ensures
            final(self).inv(),
            final(self).spec_points() == rotate_left(old(self).spec_points(), 1),
            final(self).spec_closed(),
            final(self).spec_trailing() == old(self).spec_trailing(),
            final(self).spec_id() == old(self).spec_id(),
            r == old(self).spec_points()[0].id,
            final(self).spec_points().last() == old(self).spec_points()[0],
            old(self).wf() ==> final(self).wf(),
    {
        let ghost pre = *self;
        let v = rotate_left_vec(self.points.as_ref(), 1);
        proof {
            lemma_rotate_unique(self.spec_points(), 1);
            let s = pre.spec_points();
            let r = rotate_left(s, 1);
            assert forall|i: int| 0 <= i < r.len() implies (#[trigger] r[i]).id.parent
                == pre.spec_id().raw by {
                if i < r.len() - 1 {
                    assert(r[i] == s[1 + i]);
                } else {
                    assert(r[i] == s[0]);
                }
            }
        }
        self.points.replace_points(v);
        self.closed = true;
        let s = self.points.as_ref();
        let r = s[s.len() - 1].id;
        proof {
            if pre.wf() {
                lemma_close_wf(pre.spec_points());
            }
        }
        r
    }

    /// Reverse the direction of the contour. The canonical start point of a
    /// closed contour (its last stored point) stays in place, so its
    /// identity and role are preserved while the sequence direction flips.
    pub fn reverse_contour(&mut self)
        requires
            old(self).inv(),
        ensures
            final(self).inv(),
            final(self).spec_points() == if old(self).spec_closed() && old(
                self,
            ).spec_points().len() > 0 {
                old(self).spec_points().drop_last().reverse().push(old(self).spec_points().last())
            } else {
                old(self).spec_points().reverse()
            },
            final(self).spec_closed() == old(self).spec_closed(),
            final(self).spec_trailing() == old(self).spec_trailing(),
            final(self).spec_id() == old(self).spec_id(),
            old(self).wf() ==> final(self).wf(),
    {
        proof {
            if old(self).wf() {
                lemma_reverse_contour_ok(old(self).spec_points(), old(self).spec_closed());
            }
        }
        let s = self.points.as_ref();
        let n = s.len();
        let last = if self.closed && n > 0 {
            n - 1
        } else {
            n
        };
        // build the reversal of s[0..last], then append the fixed tail
        let mut v: Vec<PathPoint> = Vec::new();
        let mut i: usize = last;
        while i > 0
            invariant
                last <= s@.len(),
                i <= last,
                v@.len() == last - i,
                forall|j: int| 0 <= j < v@.len() ==> v@[j] == s@[last - 1 - j],
            decreases i,
        {
            i -= 1;
            v.push(s[i]);
        }
        if last < n {
            v.push(s[n - 1]);
        }
        let ghost pre = *self;
        proof {
            let target = if pre.spec_closed() && pre.spec_points().len() > 0 {
                pre.spec_points().drop_last().reverse().push(pre.spec_points().last())
            } else {
                pre.spec_points().reverse()
            };
            assert(v@ =~= target);
            assert forall|a: int, b: int| 0 <= a < b < v@.len() implies v@[a].id.raw
                != v@[b].id.raw by {
                if pre.spec_closed() && pre.spec_points().len() > 0 {
                    let n2 = pre.spec_points().len() as int;
                    let oa = if a < n2 - 1 {
                        n2 - 2 - a
                    } else {
                        n2 - 1
                    };
                    let ob = if b < n2 - 1 {
                        n2 - 2 - b
                    } else {
                        n2 - 1
                    };
                    assert(v@[a] == pre.spec_points()[oa]);
                    assert(v@[b] == pre.spec_points()[ob]);
                } else {
                    let n2 = pre.spec_points().len() as int;
                    assert(v@[a] == pre.spec_points()[n2 - 1 - a]);
                    assert(v@[b] == pre.spec_points()[n2 - 1 - b]);
                }
            }
        }
        self.points.replace_points(v);
    }

    /// The stored index after `idx`, wrapping when closed.
    pub fn next_idx(&self, idx: usize) -> (r: Option<usize>)
        requires
            idx < self.spec_points().len(),
        ensures
            match r {
                Some(i) => spec_next_idx(
                    self.spec_points().len() as int,
                    self.spec_closed(),
                    idx as int,
                ) == Some(i as int) && i < self.spec_points().len(),
                None => spec_next_idx(
                    self.spec_points().len() as int,
                    self.spec_closed(),
                    idx as int,
                ) is None,
            },
    {
        let len = self.points.len();
        if self.closed {
            Some(if idx + 1 == len {
                0
            } else {
                idx + 1
            })
        } else if idx < len - 1 {
            Some(idx + 1)
        } else {
            None
        }
    }

    /// The stored index before `idx`, wrapping when closed.
    pub fn prev_idx(&self, idx: usize) -> (r: Option<usize>)
        requires
            idx < self.spec_points().len(),
        ensures
            match r {
                Some(i) => spec_prev_idx(
                    self.spec_points().len() as int,
                    self.spec_closed(),
                    idx as int,
                ) == Some(i as int) && i < self.spec_points().len(),
                None => spec_prev_idx(
                    self.spec_points().len() as int,
                    self.spec_closed(),
                    idx as int,
                ) is None,
            },
    {
        let len = self.points.len();
        if self.closed {
            Some(if idx == 0 {
                len - 1
            } else {
                idx - 1
            })
        } else if idx > 0 {
            Some(idx - 1)
        } else {
            None
        }
    }

    /// A cursor over this contour. With an identity it starts at that point
    /// (or nowhere if the identity is absent); without one it starts at the
    /// canonical start.
    pub fn cursor(&self, id: Option<EntityId>) -> (c: Cursor<'_>)
        ensures
            c.spec_inner() == *self,
            c.inv(),
            c.spec_idx() == match id {
                Some(i) => spec_find(self.spec_points(), i),
                None => if self.spec_closed() {
                    if self.spec_points().len() > 0 {
                        Some(self.spec_points().len() - 1)
                    } else {
                        None::<int>
                    }
                } else if self.spec_points().len() == 0 {
                    None::<int>
                } else {
                    Some(0int)
                },
            },
    {
        proof {
            lemma_spec_find(self.spec_points(), id->Some_0);
        }
        let idx = match id {
            Some(id) => self.points.find_linear(id),
            None => {
                if self.closed {
                    self.points.len().checked_sub(1)
                } else if self.points.is_empty() {
                    None
                } else {
                    Some(0)
                }
            },
        };
        Cursor { inner: self, idx }
    }

    /// The point with the given identity, which must be scoped to this
    /// contour. An identity no longer present answers `None`.
    pub fn path_point_for_id(&mut self, point: EntityId) -> (r: Option<PathPoint>)
        requires
            old(self).inv(),
            point.parent == old(self).spec_id().raw,
        ensures
            final(self).spec_points() == old(self).spec_points(),
            final(self).spec_closed() == old(self).spec_closed(),
            final(self).spec_trailing() == old(self).spec_trailing(),
            final(self).spec_id() == old(self).spec_id(),
            final(self).inv(),
            match r {
                Some(p) => spec_find(old(self).spec_points(), point) matches Some(i) && p == old(
                    self,
                ).spec_points()[i],
                None => spec_find(old(self).spec_points(), point) is None,
            },
    {
        self.points.get(point)
    }

    /// The point before the one with the given identity, in storage order
    /// with wraparound when closed.
    pub fn prev_point(&mut self, point: EntityId) -> (r: Option<PathPoint>)
        requires
            old(self).inv(),
            point.parent == old(self).spec_id().raw,
        ensures
            final(self).spec_points() == old(self).spec_points(),
            final(self).spec_closed() == old(self).spec_closed(),
            final(self).spec_trailing() == old(self).spec_trailing(),
            final(self).spec_id() == old(self).spec_id(),
            final(self).inv(),
            r == match spec_find(old(self).spec_points(), point) {
                Some(i) => match spec_prev_idx(
                    old(self).spec_points().len() as int,
                    old(self).spec_closed(),
                    i,
                ) {
                    Some(pi) => Some(old(self).spec_points()[pi]),
                    None => None::<PathPoint>,
                },
                None => None::<PathPoint>,
            },
    {
        proof {
            lemma_spec_find(self.spec_points(), point);
        }
        match self.points.index_for_point(point) {
            Some(i) => match self.prev_idx(i) {
                Some(pi) => Some(self.points.at(pi)),
                None => None,
            },
            None => None,
        }
    }

    /// The point after the one with the given identity, in storage order
    /// with wraparound when closed.
    pub fn next_point(&mut self, point: EntityId) -> (r: Option<PathPoint>)
        requires
            old(self).inv(),
            point.parent == old(self).spec_id().raw,
        ensures
            final(self).spec_points() == old(self).spec_points(),
            final(self).spec_closed() == old(self).spec_closed(),
            final(self).spec_trailing() == old(self).spec_trailing(),
            final(self).spec_id() == old(self).spec_id(),
            final(self).inv(),
            r == match spec_find(old(self).spec_points(), point) {
                Some(i) => match spec_next_idx(
                    old(self).spec_points().len() as int,
                    old(self).spec_closed(),
                    i,
                ) {
                    Some(ni) => Some(old(self).spec_points()[ni]),
                    None => None::<PathPoint>,
                },
                None => None::<PathPoint>,
            },
    {
        proof {
            lemma_spec_find(self.spec_points(), point);
        }
        match self.points.index_for_point(point) {
            Some(i) => match self.next_idx(i) {
                Some(ni) => Some(self.points.at(ni)),
                None => None,
            },
            None => None,
        }
    }

    /// The segment view: a fresh iterator over the contour's segments,
    /// walking an immutable snapshot of the points from the canonical start.
    pub fn iter_segments(&self) -> (r: crate::segment::Segments)
        requires
            self.wf(),
        ensures
            r.wf(),
            r.remaining() == contour_segments(self.spec_points(), self.spec_closed()),
    {
        let prev_pt = *self.start_point();
        let idx: usize = if self.closed {
            0
        } else {
            1
        };
        crate::segment::Segments { points: copy_points(self.points.as_ref()), prev_pt, idx }
    }

    /// Subdivide one segment into two: remove the old segment's interior
    /// control points and insert, in order, the non-start points of `pre`
    /// followed by the non-start points of `post`, re-scoped to this
    /// contour, truncated to the count the old kind implies (1 new on-curve
    /// point for a line, 5 points for a cubic). An absent start identity is
    /// a silent no-op.
    pub fn split_segment(&mut self, old_seg: Segment, pre: Segment, post: Segment)
        requires
            old(self).inv(),
            match spec_find(old(self).spec_points(), old_seg.spec_start().id) {
                Some(si) => match spec_next_idx(
                    old(self).spec_points().len() as int,
                    old(self).spec_closed(),
                    si,
                ) {
                    Some(ii) => fresh_outside(
                        split_ins_of(old_seg, pre, post, old(self).spec_id()),
                        old(self).spec_points(),
                        0,
                        0,
                    ),
                    None => true,
                },
                None => true,
            },
            !old_seg.spec_is_line() ==> (match spec_find(
                old(self).spec_points(),
                old_seg.spec_start().id,
            ) {
                Some(si) => match spec_next_idx(
                    old(self).spec_points().len() as int,
                    old(self).spec_closed(),
                    si,
                ) {
                    Some(ii) => ii + 2 <= old(self).spec_points().len(),
                    None => true,
                },
                None => true,
            }),
        ensures
            final(self).inv(),
            final(self).spec_closed() == old(self).spec_closed(),
            final(self).spec_trailing() == old(self).spec_trailing(),
            final(self).spec_id() == old(self).spec_id(),
            final(self).spec_points() == match spec_find(
                old(self).spec_points(),
                old_seg.spec_start().id,
            ) {
                Some(si) => match spec_next_idx(
                    old(self).spec_points().len() as int,
                    old(self).spec_closed(),
                    si,
                ) {
                    Some(ii) => splice_spec(
                        old(self).spec_points(),
                        ii,
                        if old_seg.spec_is_line() {
                            0int
                        } else {
                            2int
                        },
                        split_ins_of(old_seg, pre, post, old(self).spec_id()),
                    ),
                    None => old(self).spec_points(),
                },
                None => old(self).spec_points(),
            },
    {
        proof {
            lemma_spec_find(old(self).spec_points(), old_seg.spec_start().id);
        }
        let start_idx = match self.points.index_for_point(old_seg.start_id()) {
            Some(i) => i,
            None => {
                return ;
            },
        };
        let insert_idx = match self.next_idx(start_idx) {
            Some(i) => i,
            None => {
                return ;
            },
        };
        let existing: usize = if old_seg.is_line() {
            0
        } else {
            2
        };
        let to_insert: usize = if old_seg.is_line() {
            1
        } else {
            5
        };
        let self_id = self.path_id;
        let prep = pre.points();
        let postp = post.points();
        let ghost tail = pre.points_seq().drop_first() + post.points_seq().drop_first();
        let mut comb: Vec<PathPoint> = Vec::new();
        let mut i: usize = 1;
        while i < prep.len()
            invariant
                1 <= i <= prep@.len(),
                prep@ == pre.points_seq(),
                comb@ == pre.points_seq().drop_first().subrange(0, i - 1).map_values(
                    |p: PathPoint| p.spec_reparented(self_id),
                ),
            decreases prep@.len() - i,
        {
            let mut p = prep[i];
            p.reparent(self_id);
            comb.push(p);
            proof {
                assert(comb@ =~= pre.points_seq().drop_first().subrange(0, i as int).map_values(
                    |q: PathPoint| q.spec_reparented(self_id),
                ));
            }
            i += 1;
        }
        proof {
            assert(pre.points_seq().drop_first().subrange(
                0,
                pre.points_seq().drop_first().len() as int,
            ) =~= pre.points_seq().drop_first());
        }
        let mut j: usize = 1;
        while j < postp.len()
            invariant
                1 <= j <= postp@.len(),
                postp@ == post.points_seq(),
                comb@ == (pre.points_seq().drop_first() + post.points_seq().drop_first().subrange(
                    0,
                    j - 1,
                )).map_values(|p: PathPoint| p.spec_reparented(self_id)),
            decreases postp@.len() - j,
        {
            let mut p = postp[j];
            p.reparent(self_id);
            comb.push(p);
            proof {
                assert(comb@ =~= (pre.points_seq().drop_first()
                    + post.points_seq().drop_first().subrange(0, j as int)).map_values(
                    |q: PathPoint| q.spec_reparented(self_id),
                ));
            }
            j += 1;
        }
        proof {
            assert((pre.points_seq().drop_first() + post.points_seq().drop_first().subrange(
                0,
                post.points_seq().drop_first().len() as int,
            )) =~= tail);
        }
        if comb.len() > to_insert {
            comb.truncate(to_insert);
        }
        proof {
            let ins = split_ins_of(old_seg, pre, post, old(self).spec_id());
            assert(self.spec_id() == old(self).spec_id());
            assert(comb@ =~= ins);
            assert(self.spec_points() == old(self).spec_points());
            lemma_fresh_weaken(
                ins,
                old(self).spec_points(),
                insert_idx as int,
                existing as int,
            );
            lemma_splice_unique(self.spec_points(), insert_idx as int, existing as int, ins);
        }
        let merged = splice_points(self.points.as_ref(), insert_idx, existing, &comb);
        self.points.replace_points(merged);
    }

    /// Substitute one segment's geometry for another of a possibly
    /// different kind: the points from the old segment's start through its
    /// interior (1 point for a line, 3 for a cubic) are replaced by the
    /// points of `new_seg` short of its end. The old segment's shared end
    /// point is left in place and never duplicated, so callers construct
    /// `new_seg` with an end identical to the old one's. An absent start
    /// identity is a silent no-op.
    pub fn replace_segment(&mut self, old_seg: Segment, new_seg: Segment)
        requires
            old(self).inv(),
            new_seg.spec_end() == old_seg.spec_end(),
            forall|a: int|
                0 <= a < new_seg.points_seq().len() ==> (#[trigger] new_seg.points_seq()[a]).id.parent
                    == old(self).spec_id().raw,
            match spec_find(old(self).spec_points(), old_seg.spec_start().id) {
                Some(si) => si + (if old_seg.spec_is_line() {
                    1int
                } else {
                    3int
                }) <= old(self).spec_points().len() && fresh_outside(
                    new_seg.points_seq().drop_last(),
                    old(self).spec_points(),
                    si,
                    if old_seg.spec_is_line() {
                        1int
                    } else {
                        3int
                    },
                ),
                None => true,
            },
        ensures
            final(self).inv(),
            final(self).spec_closed() == old(self).spec_closed(),
            final(self).spec_trailing() == old(self).spec_trailing(),
            final(self).spec_id() == old(self).spec_id(),
            final(self).spec_points() == match spec_find(
                old(self).spec_points(),
                old_seg.spec_start().id,
            ) {
                Some(si) => splice_spec(
                    old(self).spec_points(),
                    si,
                    if old_seg.spec_is_line() {
                        1int
                    } else {
                        3int
                    },
                    new_seg.points_seq().drop_last(),
                ),
                None => old(self).spec_points(),
            },
    {
        let insert_idx = match self.points.index_for_point(old_seg.start_id()) {
            Some(i) => i,
            None => {
                return ;
            },
        };
        let seg_len: usize = if old_seg.is_line() {
            1
        } else {
            3
        };
        let mut newp = new_seg.points();
        let popped = newp.pop();
        proof {
            assert(popped is Some);
            assert(newp@ == new_seg.points_seq().drop_last());
            lemma_spec_find(self.spec_points(), old_seg.spec_start().id);
            lemma_splice_unique(self.spec_points(), insert_idx as int, seg_len as int, newp@);
        }
        let merged = splice_points(self.points.as_ref(), insert_idx, seg_len, &newp);
        self.points.replace_points(merged);
    }

    /// For an off-curve handle, find its on-curve neighbor and, when that
    /// neighbor is smooth, the neighbor's other off-curve handle; see
    /// `spec_tangent_handle_opt`.
    fn tangent_handle_opt(&mut self, point: EntityId) -> (r: Option<(EntityId, Option<EntityId>)>)
        requires
            old(self).inv(),
        ensures
            final(self).spec_points() == old(self).spec_points(),
            final(self).spec_closed() == old(self).spec_closed(),
            final(self).spec_trailing() == old(self).spec_trailing(),
            final(self).spec_id() == old(self).spec_id(),
            final(self).inv(),
            r == spec_tangent_handle_opt(
                old(self).spec_points(),
                old(self).spec_closed(),
                point,
            ),
    {
        proof {
            lemma_spec_find(self.spec_points(), point);
        }
        let i = match self.points.index_for_point(point) {
            Some(i) => i,
            None => {
                return None;
            },
        };
        let p = self.points.at(i);
        if !p.is_off_curve() {
            return None;
        }
        let nxt = self.next_idx(i);
        let prv = self.prev_idx(i);
        let oc: usize = {
            let from_next: Option<usize> = match nxt {
                Some(n) => if self.points.at(n).is_on_curve() {
                    Some(n)
                } else {
                    None
                },
                None => None,
            };
            match from_next {
                Some(n) => n,
                None => {
                    match prv {
                        Some(pp) => {
                            if self.points.at(pp).is_on_curve() {
                                pp
                            } else {
                                return None;
                            }
                        },
                        None => {
                            return None;
                        },
                    }
                },
            }
        };
        let ocp = self.points.at(oc);
        if !ocp.is_smooth() {
            return Some((ocp.id, None));
        }
        let other: Option<EntityId> = {
            let n2 = self.next_idx(oc);
            let from_next: Option<EntityId> = match n2 {
                Some(n) => {
                    let q = self.points.at(n);
                    if q.is_off_curve() && q.id != point {
                        Some(q.id)
                    } else {
                        None
                    }
                },
                None => None,
            };
            match from_next {
                Some(idn) => Some(idn),
                None => {
                    match self.prev_idx(oc) {
                        Some(pp) => {
                            let q = self.points.at(pp);
                            if q.is_off_curve() && q.id != point {
                                Some(q.id)
                            } else {
                                None
                            }
                        },
                        None => None,
                    }
                },
            }
        };
        Some((ocp.id, other))
    }

    /// For an off-curve handle, its on-curve neighbor and its tangent
    /// partner handle, when both exist.
    fn tangent_handle(&mut self, point: EntityId) -> (r: Option<(EntityId, EntityId)>)
        requires
            old(self).inv(),
        ensures
            final(self).spec_points() == old(self).spec_points(),
            final(self).spec_closed() == old(self).spec_closed(),
            final(self).spec_trailing() == old(self).spec_trailing(),
            final(self).spec_id() == old(self).spec_id(),
            final(self).inv(),
            r == match spec_tangent_handle_opt(
                old(self).spec_points(),
                old(self).spec_closed(),
                point,
            ) {
                Some((oc, h2opt)) => match h2opt {
                    Some(h2) => Some((oc, h2)),
                    None => None::<(EntityId, EntityId)>,
                },
                None => None::<(EntityId, EntityId)>,
            },
    {
        match self.tangent_handle_opt(point) {
            Some((on_curve, Some(bcp2))) => Some((on_curve, bcp2)),
            _ => None,
        }
    }

    /// Re-angle the tangent partner `bcp2` after its sibling `bcp1` moved:
    /// `bcp2` keeps its own distance from the on-curve point and only its
    /// angle changes, mirroring `bcp1`'s direction; see `spec_adjusted`.
    fn adjust_handle_angle(&mut self, bcp1: EntityId, on_curve: EntityId, bcp2: EntityId)
        requires
            old(self).inv(),
        ensures
            final(self).spec_points() == spec_adjusted(
                old(self).spec_points(),
                bcp1,
                on_curve,
                bcp2,
            ),
            final(self).spec_closed() == old(self).spec_closed(),
            final(self).spec_trailing() == old(self).spec_trailing(),
            final(self).spec_id() == old(self).spec_id(),
            final(self).inv(),
            final(self).spec_points().len() == old(self).spec_points().len(),
            forall|i: int|
                0 <= i < old(self).spec_points().len() ==> (
                #[trigger] final(self).spec_points()[i]).id == old(self).spec_points()[i].id,
            forall|i: int|
                0 <= i < old(self).spec_points().len() && spec_find(
                    old(self).spec_points(),
                    bcp2,
                ) != Some(i) ==> #[trigger] final(self).spec_points()[i] == old(
                    self,
                ).spec_points()[i],
    {
        let p1 = match self.points.get(bcp1) {
            Some(p) => p,
            None => {
                return ;
            },
        };
        let p2 = match self.points.get(on_curve) {
            Some(p) => p,
            None => {
                return ;
            },
        };
        let p3 = match self.points.get(bcp2) {
            Some(p) => p,
            None => {
                return ;
            },
        };
        if !(p1.point.in_coord_limit() && p2.point.in_coord_limit() && p3.point.in_coord_limit()) {
            return ;
        }
        let ghost s_old = self.spec_points();
        match crate::design_space::tangent_mirror(p1.point, p2.point, p3.point) {
            Some(q) => {
                proof {
                    lemma_spec_find(s_old, bcp2);
                }
                self.points.set_pos(bcp2, q);
                proof {
                    let f = spec_find(s_old, bcp2);
                    if f is Some {
                        let i = f->Some_0;
                        assert forall|j: int| 0 <= j < s_old.len() implies (
                        #[trigger] self.spec_points()[j]).id == s_old[j].id by {
                            if j != i {
                                assert(self.spec_points()[j] == s_old[j]);
                            }
                        }
                        lemma_scoped_same_ids(s_old, self.spec_points(), self.spec_id().raw);
                    }
                }
            },
            None => {},
        }
    }

    /// Move the off-curve handle `bcp1` to `dpt`. With `is_locked` the new
    /// position first snaps onto the horizontal or vertical axis through
    /// the handle's on-curve neighbor. When that neighbor is smooth and has
    /// a second handle, that partner is re-angled to stay collinear,
    /// keeping its own distance. A handle without a tangent context (an
    /// absent identity, or one naming an on-curve point) is a silent no-op.
    pub fn update_handle(&mut self, bcp1: EntityId, dpt: DPoint, is_locked: bool)
        requires
            old(self).inv(),
        ensures
            final(self).spec_points() == spec_update_handle(
                old(self).spec_points(),
                old(self).spec_closed(),
                bcp1,
                dpt,
                is_locked,
            ),
            final(self).spec_closed() == old(self).spec_closed(),
            final(self).spec_trailing() == old(self).spec_trailing(),
            final(self).spec_id() == old(self).spec_id(),
            final(self).inv(),
            old(self).wf() ==> final(self).wf(),
    {
        proof {
            lemma_update_handle_same_ids_roles(
                old(self).spec_points(),
                old(self).spec_closed(),
                bcp1,
                dpt,
                is_locked,
            );
            if old(self).wf() {
                lemma_wf_same_roles(
                    old(self).spec_points(),
                    spec_update_handle(
                        old(self).spec_points(),
                        old(self).spec_closed(),
                        bcp1,
                        dpt,
                        is_locked,
                    ),
                    old(self).spec_closed(),
                );
            }
        }
        let (on_curve, bcp2) = match self.tangent_handle_opt(bcp1) {
            Some(t) => t,
            None => {
                return ;
            },
        };
        let ocp = match self.points.get(on_curve) {
            Some(p) => p,
            None => {
                return ;
            },
        };
        let d = if is_locked {
            dpt.axis_locked_to(ocp.point)
        } else {
            dpt
        };
        let ghost s_old = self.spec_points();
        proof {
            lemma_spec_find(s_old, bcp1);
        }
        self.points.set_pos(bcp1, d);
        proof {
            let f = spec_find(s_old, bcp1);
            if f is Some {
                let i = f->Some_0;
                assert forall|j: int| 0 <= j < s_old.len() implies (
                #[trigger] self.spec_points()[j]).id == s_old[j].id by {
                    if j != i {
                        assert(self.spec_points()[j] == s_old[j]);
                    }
                }
                lemma_scoped_same_ids(s_old, self.spec_points(), self.spec_id().raw);
            }
        }
        match bcp2 {
            Some(b2) => {
                self.adjust_handle_angle(bcp1, on_curve, b2);
            },
            None => {},
        }
    }

    /// Apply an affine transform, relative to `anchor`, to every point and
    /// to the trailing point if present.
    pub fn transform_all(&mut self, affine: crate::design_space::Transform, anchor: DPoint)
        requires
            old(self).inv(),
            affine.bounded(crate::design_space::TRANSFORM_LIMIT as int),
            anchor.bounded(crate::design_space::TRANSFORM_LIMIT as int),
            points_bounded(
                old(self).spec_points(),
                crate::design_space::TRANSFORM_LIMIT as int,
            ),
            old(self).spec_trailing() matches Some(tp) ==> tp.bounded(
                crate::design_space::TRANSFORM_LIMIT as int,
            ),
        ensures
            final(self).inv(),
            final(self).spec_points() == old(self).spec_points().map_values(
                |p: PathPoint| PathPoint { point: affine.spec_apply(anchor, p.point), ..p },
            ),
            final(self).spec_closed() == old(self).spec_closed(),
            final(self).spec_id() == old(self).spec_id(),
            final(self).spec_trailing() == match old(self).spec_trailing() {
                Some(tp) => Some(affine.spec_apply(anchor, tp)),
                None => None::<DPoint>,
            },
            old(self).wf() ==> final(self).wf(),
    {
        proof {
            let m = old(self).spec_points().map_values(
                |p: PathPoint| PathPoint { point: affine.spec_apply(anchor, p.point), ..p },
            );
            assert(same_ids_roles(old(self).spec_points(), m));
            if old(self).wf() {
                lemma_wf_same_roles(old(self).spec_points(), m, old(self).spec_closed());
            }
        }
        let ghost s0 = self.spec_points();
        let ghost f = |p: PathPoint| PathPoint { point: affine.spec_apply(anchor, p.point), ..p };
        let n = self.points.len();
        let mut v: Vec<PathPoint> = Vec::new();
        let mut i: usize = 0;
        while i < n
            invariant
                n == s0.len(),
                i <= n,
                self.spec_points() == s0,
                affine.bounded(crate::design_space::TRANSFORM_LIMIT as int),
                anchor.bounded(crate::design_space::TRANSFORM_LIMIT as int),
                points_bounded(s0, crate::design_space::TRANSFORM_LIMIT as int),
                f == (|p: PathPoint| PathPoint {
                    point: affine.spec_apply(anchor, p.point),
                    ..p
                }),
                v@ == s0.subrange(0, i as int).map_values(f),
            decreases n - i,
        {
            let p = self.points.at(i);
            let q = PathPoint { point: affine.apply(anchor, p.point), ..p };
            v.push(q);
            proof {
                assert(v@ =~= s0.subrange(0, i + 1).map_values(f));
            }
            i += 1;
        }
        proof {
            assert(s0.subrange(0, s0.len() as int) =~= s0);
            let v2 = s0.map_values(f);
            assert forall|a: int, b: int| 0 <= a < b < v2.len() implies v2[a].id.raw
                != v2[b].id.raw by {
                assert(v2[a].id == s0[a].id);
                assert(v2[b].id == s0[b].id);
            }
            assert forall|a: int| 0 <= a < v2.len() implies (#[trigger] v2[a]).id.parent
                == self.spec_id().raw by {
                assert(v2[a].id == s0[a].id);
            }
        }
        self.points.replace_points(v);
        match self.trailing {
            Some(tp) => {
                self.trailing = Some(affine.apply(anchor, tp));
            },
            None => {},
        }
    }

    /// The requested identities together with any off-curve neighbor
    /// adjacent to a selected point: a moved vertex drags its own handles.
    fn points_for_points(&mut self, points: &[EntityId]) -> (r: Vec<EntityId>)
        requires
            old(self).inv(),
        ensures
            final(self).spec_points() == old(self).spec_points(),
            final(self).spec_closed() == old(self).spec_closed(),
            final(self).spec_trailing() == old(self).spec_trailing(),
            final(self).spec_id() == old(self).spec_id(),
            final(self).inv(),
            r@ == spec_expand(old(self).spec_points(), old(self).spec_closed(), points@),
    {
        let ghost s0 = self.spec_points();
        let ghost closed0 = self.spec_closed();
        let mut out: Vec<EntityId> = Vec::new();
        let n_req = points.len();
        let mut k: usize = 0;
        while k < n_req
            invariant
                n_req == points@.len(),
                k <= n_req,
                self.inv(),
                self.spec_points() == s0,
                self.spec_closed() == closed0,
                self.spec_trailing() == old(self).spec_trailing(),
                self.spec_id() == old(self).spec_id(),
                out@ == spec_expand(s0, closed0, points@.subrange(0, k as int)),
            decreases n_req - k,
        {
            let id = points[k];
            let ghost acc0 = out@;
            proof {
                lemma_spec_find(s0, id);
            }
            match self.points.index_for_point(id) {
                None => {},
                Some(i) => {
                    if !contains_id(&out, id) {
                        out.push(id);
                    }
                    match self.prev_idx(i) {
                        Some(p) => {
                            let q = self.points.at(p);
                            if q.is_off_curve() && !contains_id(&out, q.id) {
                                out.push(q.id);
                            }
                        },
                        None => {},
                    }
                    match self.next_idx(i) {
                        Some(nn) => {
                            let q = self.points.at(nn);
                            if q.is_off_curve() && !contains_id(&out, q.id) {
                                out.push(q.id);
                            }
                        },
                        None => {},
                    }
                },
            }
            proof {
                assert(out@ =~= expand_step(s0, closed0, acc0, id));
                let pre = points@.subrange(0, k as int);
                let cur = points@.subrange(0, k + 1);
                assert(cur.drop_last() =~= pre);
                assert(cur.last() == points@[k as int]);
            }
            k += 1;
        }
        proof {
            assert(points@.subrange(0, points@.len() as int) =~= points@);
        }
        out
    }

    /// Apply an affine transform, relative to `anchor`, to the selected
    /// points, first expanding the selection with any adjacent off-curve
    /// handles, and re-angling the tangent partner of every moved handle
    /// whose partner was not itself moved.
    pub fn transform_points(
        &mut self,
        points: &[EntityId],
        affine: crate::design_space::Transform,
        anchor: DPoint,
    )
        requires
            old(self).inv(),
            affine.bounded(crate::design_space::TRANSFORM_LIMIT as int),
            anchor.bounded(crate::design_space::TRANSFORM_LIMIT as int),
            points_bounded(
                old(self).spec_points(),
                crate::design_space::TRANSFORM_LIMIT as int,
            ),
        ensures
            final(self).inv(),
            final(self).spec_closed() == old(self).spec_closed(),
            final(self).spec_trailing() == old(self).spec_trailing(),
            final(self).spec_id() == old(self).spec_id(),
            final(self).spec_points() == ({
                let tx = spec_expand(old(self).spec_points(), old(self).spec_closed(), points@);
                spec_transform_fold(
                    old(self).spec_points(),
                    old(self).spec_closed(),
                    affine,
                    anchor,
                    tx,
                    tx.len() as int,
                )
            }),
            old(self).wf() ==> final(self).wf(),
    {
        proof {
            let txg = spec_expand(old(self).spec_points(), old(self).spec_closed(), points@);
            lemma_transform_fold_same_ids_roles(
                old(self).spec_points(),
                old(self).spec_closed(),
                affine,
                anchor,
                txg,
                txg.len() as int,
            );
            if old(self).wf() {
                lemma_wf_same_roles(
                    old(self).spec_points(),
                    spec_transform_fold(
                        old(self).spec_points(),
                        old(self).spec_closed(),
                        affine,
                        anchor,
                        txg,
                        txg.len() as int,
                    ),
                    old(self).spec_closed(),
                );
            }
        }
        let ghost s0 = self.spec_points();
        let ghost closed0 = self.spec_closed();
        let tx = self.points_for_points(points);
        proof {
            lemma_expand_nodup(s0, closed0, points@);
        }
        let n = tx.len();
        let mut k: usize = 0;
        while k < n
            invariant
                n == tx@.len(),
                k <= n,
                self.inv(),
                self.spec_closed() == closed0,
                self.spec_trailing() == old(self).spec_trailing(),
                self.spec_id() == old(self).spec_id(),
                affine.bounded(crate::design_space::TRANSFORM_LIMIT as int),
                anchor.bounded(crate::design_space::TRANSFORM_LIMIT as int),
                points_bounded(s0, crate::design_space::TRANSFORM_LIMIT as int),
                nodup_ids(tx@),
                self.spec_points() == spec_transform_fold(
                    s0,
                    closed0,
                    affine,
                    anchor,
                    tx@,
                    k as int,
                ),
                self.spec_points().len() == s0.len(),
                forall|i: int|
                    0 <= i < s0.len() ==> (#[trigger] self.spec_points()[i]).id == s0[i].id,
                forall|j: int|
                    k <= j < n ==> match spec_find(s0, #[trigger] tx@[j]) {
                        Some(i) => self.spec_points()[i] == s0[i],
                        None => true,
                    },
            decreases n - k,
        {
            let pid = tx[k];
            let ghost s_cur = self.spec_points();
            let ghost mut s1g = s_cur;
            let ghost mut adj: Option<EntityId> = None;
            proof {
                lemma_spec_find_same_ids(s0, s_cur, pid);
                lemma_spec_find(s_cur, pid);
                lemma_spec_find(s0, pid);
            }
            match self.points.index_for_point(pid) {
                None => {},
                Some(i) => {
                    let p = self.points.at(i);
                    proof {
                        assert(spec_find(s0, tx@[k as int]) == Some(i as int));
                        assert(p == s0[i as int]);
                        assert(s0[i as int].point.bounded(
                            crate::design_space::TRANSFORM_LIMIT as int,
                        ));
                    }
                    let np = affine.apply(anchor, p.point);
                    self.points.set_pos(pid, np);
                    proof {
                        s1g = self.spec_points();
                        assert forall|jj: int| 0 <= jj < s0.len() implies (#[trigger] s1g[jj]).id
                            == s0[jj].id by {
                            if jj != i as int {
                                assert(s1g[jj] == s_cur[jj]);
                            }
                        }
                        lemma_scoped_same_ids(s_cur, s1g, self.spec_id().raw);
                    }
                    match self.tangent_handle(pid) {
                        Some((oc, h2)) => {
                            if !contains_id(&tx, h2) {
                                proof {
                                    adj = Some(h2);
                                }
                                self.adjust_handle_angle(pid, oc, h2);
                            }
                        },
                        None => {},
                    }
                },
            }
            proof {
                // the step's result is the next fold state
                assert(self.spec_points() == spec_transform_step(
                    s_cur,
                    closed0,
                    affine,
                    anchor,
                    tx@,
                    tx@[k as int],
                ));
                assert(self.spec_points() == spec_transform_fold(
                    s0,
                    closed0,
                    affine,
                    anchor,
                    tx@,
                    k + 1,
                ));
                // identities are untouched throughout
                assert forall|jj: int| 0 <= jj < s0.len() implies (
                #[trigger] self.spec_points()[jj]).id == s0[jj].id by {
                    assert(self.spec_points()[jj].id == s1g[jj].id);
                    assert(s1g[jj].id == s0[jj].id);
                }
                // unprocessed selected points still hold their original values
                assert forall|j: int| k + 1 <= j < n implies match spec_find(
                    s0,
                    #[trigger] tx@[j],
                ) {
                    Some(i2) => self.spec_points()[i2] == s0[i2],
                    None => true,
                } by {
                    if spec_find(s0, tx@[j]) is Some {
                        let i2 = spec_find(s0, tx@[j])->Some_0;
                        lemma_spec_find(s0, tx@[j]);
                        assert(s_cur[i2] == s0[i2]);
                        // the transformed point is a different identity
                        assert(tx@[j] != tx@[k as int]);
                        if spec_find(s0, pid) is Some {
                            let ip = spec_find(s0, pid)->Some_0;
                            assert(s0[ip].id == pid);
                            assert(s0[i2].id == tx@[j]);
                            assert(i2 != ip);
                            assert(s1g[i2] == s_cur[i2]);
                        } else {
                            assert(s1g == s_cur);
                        }
                        // an adjusted partner was never a selected identity
                        match adj {
                            Some(h2) => {
                                assert(!tx@.contains(h2));
                                lemma_spec_find(s1g, h2);
                                if spec_find(s1g, h2) == Some(i2) {
                                    assert(s1g[i2].id == h2);
                                    assert(s1g[i2].id == s0[i2].id);
                                    assert(h2 == tx@[j]);
                                    assert(tx@.contains(tx@[j]));
                                    assert(false);
                                }
                                assert(self.spec_points()[i2] == s1g[i2]);
                            },
                            None => {
                                assert(self.spec_points() == s1g);
                            },
                        }
                    }
                }
            }
            k += 1;
        }
    }

    /// Append the deletion closure of one requested identity to `out`; see
    /// `spec_delete_closure_one`.
    fn delete_closure_one(&mut self, id: EntityId, out: &mut Vec<EntityId>)
        requires
            old(self).inv(),
        ensures
            final(self).spec_points() == old(self).spec_points(),
            final(self).spec_closed() == old(self).spec_closed(),
            final(self).spec_trailing() == old(self).spec_trailing(),
            final(self).spec_id() == old(self).spec_id(),
            final(self).inv(),
            final(out)@ == old(out)@ + spec_delete_closure_one(
                old(self).spec_points(),
                old(self).spec_closed(),
                id,
            ),
    {
        let ghost s = self.spec_points();
        let ghost closed = self.spec_closed();
        proof {
            lemma_spec_find(s, id);
        }
        let i = match self.points.index_for_point(id) {
            Some(i) => i,
            None => {
                proof {
                    assert(old(out)@ + spec_delete_closure_one(s, closed, id) =~= old(out)@);
                }
                return ;
            },
        };
        let p = self.points.at(i);
        let prv = self.prev_idx(i);
        let nxt = self.next_idx(i);
        out.push(p.id);
        if p.is_off_curve() {
            let prv_off = match prv {
                Some(pi) => self.points.at(pi).is_off_curve(),
                None => false,
            };
            if prv_off {
                out.push(self.points.at(prv.unwrap()).id);
            } else {
                let nxt_off = match nxt {
                    Some(ni) => self.points.at(ni).is_off_curve(),
                    None => false,
                };
                if nxt_off {
                    out.push(self.points.at(nxt.unwrap()).id);
                }
            }
        } else {
            let prv_off = match prv {
                Some(pi) => self.points.at(pi).is_off_curve(),
                None => false,
            };
            let nxt_off = match nxt {
                Some(ni) => self.points.at(ni).is_off_curve(),
                None => false,
            };
            if prv_off && nxt_off {
                out.push(self.points.at(prv.unwrap()).id);
                out.push(self.points.at(nxt.unwrap()).id);
            } else if prv.is_none() && nxt_off {
                let n = nxt.unwrap();
                out.push(self.points.at(n).id);
                match self.next_idx(n) {
                    Some(n2) => {
                        if self.points.at(n2).is_off_curve() {
                            out.push(self.points.at(n2).id);
                        }
                    },
                    None => {},
                }
            } else if nxt.is_none() && prv_off {
                let pp = prv.unwrap();
                out.push(self.points.at(pp).id);
                match self.prev_idx(pp) {
                    Some(p2) => {
                        if self.points.at(p2).is_off_curve() {
                            out.push(self.points.at(p2).id);
                        }
                    },
                    None => {},
                }
            }
        }
        proof {
            assert(final(out)@ =~= old(out)@ + spec_delete_closure_one(s, closed, id));
        }
    }

    /// Delete the points with the requested identities, together with each
    /// one's deletion closure (orphaned handles are never left behind), in
    /// one pass. Afterwards a closed contour is re-normalized so its
    /// canonical start is on-curve, a contour left with fewer than three
    /// points is forced open, and any smooth point that lost both handles
    /// becomes a corner. Absent identities are silently ignored.
    #[verifier::rlimit(50)]
    pub fn delete_points(&mut self, points: &[EntityId])
        requires
            old(self).inv(),
        ensures
            final(self).inv(),
            final(self).spec_points() == spec_delete_points(
                old(self).spec_points(),
                old(self).spec_closed(),
                points@,
            ).0,
            final(self).spec_closed() == spec_delete_points(
                old(self).spec_points(),
                old(self).spec_closed(),
                points@,
            ).1,
            final(self).spec_trailing() == old(self).spec_trailing(),
            final(self).spec_id() == old(self).spec_id(),
            spec_first_on(
                remove_ids(
                    old(self).spec_points(),
                    spec_delete_set(old(self).spec_points(), old(self).spec_closed(), points@),
                ),
            ) is Some ==> final(self).wf(),
    {
        proof {
            if spec_first_on(
                remove_ids(
                    old(self).spec_points(),
                    spec_delete_set(old(self).spec_points(), old(self).spec_closed(), points@),
                ),
            ) is Some {
                lemma_delete_restores_invariants(
                    old(self).spec_points(),
                    old(self).spec_closed(),
                    points@,
                );
            }
        }
        let ghost s0 = self.spec_points();
        let ghost closed0 = self.spec_closed();
        let mut to_delete: Vec<EntityId> = Vec::new();
        let n_req = points.len();
        let mut k: usize = 0;
        while k < n_req
            invariant
                n_req == points@.len(),
                k <= n_req,
                self.inv(),
                self.spec_points() == s0,
                self.spec_closed() == closed0,
                self.spec_trailing() == old(self).spec_trailing(),
                self.spec_id() == old(self).spec_id(),
                to_delete@ == spec_delete_set(s0, closed0, points@.subrange(0, k as int)),
            decreases n_req - k,
        {
            self.delete_closure_one(points[k], &mut to_delete);
            proof {
                let pre = points@.subrange(0, k as int);
                let cur = points@.subrange(0, k + 1);
                assert(cur.drop_last() =~= pre);
                assert(cur.last() == points@[k as int]);
            }
            k += 1;
        }
        proof {
            assert(points@.subrange(0, points@.len() as int) =~= points@);
        }
        // remove the closure members in one pass
        let n = self.points.len();
        let mut kept: Vec<PathPoint> = Vec::new();
        let mut i: usize = 0;
        while i < n
            invariant
                n == s0.len(),
                i <= n,
                self.spec_points() == s0,
                kept@ == remove_ids(s0.subrange(0, i as int), to_delete@),
            decreases n - i,
        {
            let p = self.points.at(i);
            if !contains_id(&to_delete, p.id) {
                kept.push(p);
            }
            proof {
                let pre = s0.subrange(0, i as int);
                let cur = s0.subrange(0, i + 1);
                assert(cur.drop_last() =~= pre);
                assert(cur.last() == s0[i as int]);
            }
            i += 1;
        }
        proof {
            assert(s0.subrange(0, s0.len() as int) =~= s0);
            lemma_remove_ids_unique(s0, to_delete@);
        }
        let ghost s2 = remove_ids(s0, to_delete@);
        proof {
            lemma_spec_first_on(s2);
            assert forall|j: int| 0 <= j < s2.len() implies (#[trigger] s2[j]).id.parent
                == self.spec_id().raw by {
                assert(s2.contains(s2[j]));
                assert(s0.contains(s2[j]));
                let oj = choose|oj: int| 0 <= oj < s0.len() && s0[oj] == s2[j];
                assert(s0[oj].id.parent == self.spec_id().raw);
            }
            if closed0 && !(s2.len() == 0 || s2.last().spec_is_on_curve()) {
                match spec_first_on(s2) {
                    Some(fo) => {
                        lemma_rotate_unique(s2, fo + 1);
                        lemma_rotate_scoped(s2, fo + 1, self.spec_id().raw);
                    },
                    None => {},
                }
            }
        }
        // re-normalize a closed contour so its canonical start is on-curve,
        // then repair any orphaned handles the one-pass removal left behind
        let kept2: Vec<PathPoint> = if self.closed() {
            let kn = normalize_closed_points(kept);
            repair_from_vec(kn.as_slice(), 0)
        } else {
            repair_open_vec(kept)
        };
        proof {
            let ghost s3 = spec_after_removal(s0, closed0, points@);
            assert(kept2@ == s3);
            let ghost sn = if closed0 {
                normalize_closed(s2)
            } else {
                s2
            };
            lemma_repair_from_unique(sn, 0);
            lemma_repair_from_sub(sn, 0);
            if !closed0 {
                match spec_first_on(s2) {
                    Some(k) => {
                        lemma_repair_from_unique(s2, k + 1);
                        lemma_repair_from_sub(s2, k + 1);
                        let rest = repair_from(s2, k + 1);
                        assert forall|a: int, b: int| 0 <= a < b < s3.len() implies s3[a].id.raw
                            != s3[b].id.raw by {
                            if a == 0 {
                                assert(s3[b] == rest[b - 1]);
                                assert(rest.contains(rest[b - 1]));
                                let j = choose|j: int|
                                    k + 1 <= j < s2.len() && s2[j] == rest[b - 1];
                                assert(s2[k].id.raw != s2[j].id.raw);
                            } else {
                                assert(s3[a] == rest[a - 1] && s3[b] == rest[b - 1]);
                            }
                        }
                        assert forall|j: int| 0 <= j < s3.len() implies (
                        #[trigger] s3[j]).id.parent == self.spec_id().raw by {
                            if j == 0 {
                                assert(s3[j] == s2[k]);
                            } else {
                                assert(s3[j] == rest[j - 1]);
                                assert(rest.contains(rest[j - 1]));
                                let oj = choose|oj: int|
                                    k + 1 <= oj < s2.len() && s2[oj] == rest[j - 1];
                                assert(s2[oj].id.parent == self.spec_id().raw);
                            }
                        }
                    },
                    None => {
                        assert(s3 =~= Seq::<PathPoint>::empty());
                    },
                }
            } else {
                assert forall|j: int| 0 <= j < sn.len() implies (#[trigger] sn[j]).id.parent
                    == self.spec_id().raw by {}
                assert forall|j: int| 0 <= j < s3.len() implies (#[trigger] s3[j]).id.parent
                    == self.spec_id().raw by {
                    assert(s3.contains(s3[j]));
                    let oj = choose|oj: int| 0 <= oj < sn.len() && sn[oj] == s3[j];
                    assert(sn[oj].id.parent == self.spec_id().raw);
                }
            }
        }
        // a contour with fewer than three points cannot remain closed
        let new_closed = self.closed() && kept2.len() >= 3;
        // convert smooth points that lost both handles back to corners
        let m = kept2.len();
        let mut fixed: Vec<PathPoint> = Vec::new();
        let mut fi: usize = 0;
        while fi < m
            invariant
                m == kept2@.len(),
                fi <= m,
                fixed@.len() == fi,
                forall|j: int| 0 <= j < fi ==> fixed@[j] == fixup_at(kept2@, new_closed, j),
            decreases m - fi,
        {
            let p = kept2[fi];
            let prev_on: bool = if new_closed {
                let pi = if fi == 0 {
                    m - 1
                } else {
                    fi - 1
                };
                kept2[pi].is_on_curve()
            } else if fi > 0 {
                kept2[fi - 1].is_on_curve()
            } else {
                false
            };
            let next_on: bool = if new_closed {
                let ni = if fi + 1 == m {
                    0
                } else {
                    fi + 1
                };
                kept2[ni].is_on_curve()
            } else if fi + 1 < m {
                kept2[fi + 1].is_on_curve()
            } else {
                false
            };
            if p.is_smooth() && prev_on && next_on {
                let mut q = p;
                q.toggle_type();
                fixed.push(q);
            } else {
                fixed.push(p);
            }
            fi += 1;
        }
        proof {
            assert(fixed@ =~= smooth_fixup(kept2@, new_closed));
            assert forall|a: int, b: int| 0 <= a < b < fixed@.len() implies fixed@[a].id.raw
                != fixed@[b].id.raw by {
                assert(fixed@[a].id == kept2@[a].id);
                assert(fixed@[b].id == kept2@[b].id);
            }
            assert forall|j: int| 0 <= j < fixed@.len() implies (#[trigger] fixed@[j]).id.parent
                == self.spec_id().raw by {
                assert(fixed@[j].id == kept2@[j].id);
            }
        }
        self.points.replace_points(fixed);
        self.closed = new_closed;
    }
}

/// Whether `v` holds the identity `id`.
fn contains_id(v: &Vec<EntityId>, id: EntityId) -> (r: bool)
    ensures
        r == v@.contains(id),
{
    let mut i: usize = 0;
    while i < v.len()
        invariant
            i <= v@.len(),
            forall|j: int| 0 <= j < i ==> v@[j] != id,
        decreases v@.len() - i,
    {
        if v[i] == id {
            return true;
        }
        i += 1;
    }
    proof {
        if v@.contains(id) {
            let j = choose|j: int| 0 <= j < v@.len() && v@[j] == id;
            assert(v@[j] != id);
        }
    }
    false
}

/// The sequence repaired as `repair_from` describes: orphaned off-curve
/// points are dropped, complete pairs and on-curve points kept.
fn repair_from_vec(s: &[PathPoint], start: usize) -> (r: Vec<PathPoint>)
    requires
        start <= s@.len(),
    ensures
        r@ == repair_from(s@, start as int),
{
    let n = s.len();
    let mut out: Vec<PathPoint> = Vec::new();
    let mut i: usize = start;
    while i < n
        invariant
            n == s@.len(),
            start <= i <= n,
            repair_from(s@, start as int) == out@ + repair_from(s@, i as int),
        decreases n - i,
    {
        let ghost pre = out@;
        if s[i].is_on_curve() {
            out.push(s[i]);
            proof {
                assert(out@ + repair_from(s@, i + 1) =~= pre + (seq![s@[i as int]]
                    + repair_from(s@, i + 1)));
            }
            i += 1;
        } else if n - i > 2 && s[i + 1].is_off_curve() && s[i + 2].is_on_curve() {
            out.push(s[i]);
            out.push(s[i + 1]);
            out.push(s[i + 2]);
            proof {
                assert(out@ + repair_from(s@, i + 3) =~= pre + (seq![
                    s@[i as int],
                    s@[i + 1],
                    s@[i + 2],
                ] + repair_from(s@, i + 3)));
            }
            i += 3;
        } else {
            i += 1;
        }
    }
    proof {
        assert(repair_from(s@, n as int) =~= Seq::<PathPoint>::empty());
        assert(out@ + repair_from(s@, n as int) =~= out@);
    }
    out
}

/// The sequence repaired as `repair_open` describes: leading control
/// points are dropped too, so an open contour starts on-curve.
fn repair_open_vec(v: Vec<PathPoint>) -> (r: Vec<PathPoint>)
    ensures
        r@ == repair_open(v@),
{
    proof {
        lemma_spec_first_on(v@);
    }
    let n = v.len();
    let mut k: usize = 0;
    while k < n && !v[k].is_on_curve()
        invariant
            n == v@.len(),
            k <= n,
            forall|j: int| 0 <= j < k ==> !(#[trigger] v@[j]).spec_is_on_curve(),
        decreases n - k,
    {
        k += 1;
    }
    if k == n {
        proof {
            lemma_spec_first_on(v@);
            if spec_first_on(v@) is Some {
                assert(!v@[spec_first_on(v@)->Some_0].spec_is_on_curve());
            }
        }
        return Vec::new();
    }
    proof {
        lemma_spec_first_on(v@);
        if spec_first_on(v@) is None {
            assert(!v@[k as int].spec_is_on_curve());
        }
        let fo = spec_first_on(v@)->Some_0;
        if fo < k as int {
            assert(!v@[fo].spec_is_on_curve());
        }
        if fo > k as int {
            assert(!v@[k as int].spec_is_on_curve());
        }
        assert(fo == k as int);
    }
    let mut out: Vec<PathPoint> = Vec::new();
    out.push(v[k]);
    let mut rest = repair_from_vec(v.as_slice(), k + 1);
    let ghost rest0 = rest@;
    out.append(&mut rest);
    proof {
        assert(out@ =~= seq![v@[k as int]] + rest0);
    }
    out
}

/// The sequence normalized as `normalize_closed` describes: rotated left
/// just past the first on-curve point when the last point is off-curve.
fn normalize_closed_points(v: Vec<PathPoint>) -> (r: Vec<PathPoint>)
    ensures
        r@ == normalize_closed(v@),
{
    proof {
        lemma_spec_first_on(v@);
    }
    let n = v.len();
    if n == 0 {
        return v;
    }
    if v[n - 1].is_on_curve() {
        return v;
    }
    let mut k: usize = 0;
    while k < n && !v[k].is_on_curve()
        invariant
            n == v@.len(),
            k <= n,
            forall|j: int| 0 <= j < k ==> !(#[trigger] v@[j]).spec_is_on_curve(),
        decreases n - k,
    {
        k += 1;
    }
    if k == n {
        proof {
            lemma_spec_first_on(v@);
            if spec_first_on(v@) is Some {
                let fo = spec_first_on(v@)->Some_0;
                assert(!v@[fo].spec_is_on_curve());
            }
        }
        return v;
    }
    proof {
        lemma_spec_first_on(v@);
        if spec_first_on(v@) is None {
            assert(!v@[k as int].spec_is_on_curve());
        }
        let fo = spec_first_on(v@)->Some_0;
        if fo < k as int {
            assert(!v@[fo].spec_is_on_curve());
        }
        if fo > k as int {
            assert(!v@[k as int].spec_is_on_curve());
        }
        assert(fo == k as int);
    }
    rotate_left_vec(v.as_slice(), k + 1)
}

/// The stored index after `i`: the next position, wrapping around when the
/// contour is closed and stopping at the boundary when open.
pub open spec fn spec_next_idx(len: int, closed: bool, i: int) -> Option<int> {
    if closed {
        Some(if i + 1 == len {
            0int
        } else {
            i + 1
        })
    } else if i < len - 1 {
        Some(i + 1)
    } else {
        None
    }
}

/// The stored index before `i`: the previous position, wrapping around when
/// the contour is closed and stopping at the boundary when open.
pub open spec fn spec_prev_idx(len: int, closed: bool, i: int) -> Option<int> {
    if closed {
        Some(if i == 0 {
            len - 1
        } else {
            i - 1
        })
    } else if i > 0 {
        Some(i - 1)
    } else {
        None
    }
}

/// The segment view of a contour: the lazy walk of the stored points from
/// the canonical start.
pub open spec fn contour_segments(points: Seq<PathPoint>, closed: bool) -> Seq<Segment> {
    if points.len() == 0 {
        Seq::empty()
    } else if closed {
        crate::segment::segments_from(points, points.last(), 0)
    } else {
        crate::segment::segments_from(points, points[0], 1)
    }
}

/// A position-aware view into a contour, stepping circularly for closed
/// contours and stopping at the boundary for open ones.
///
/// A cursor is transient: it borrows the contour for a single logical
/// operation and is not kept across mutations.
pub struct Cursor<'a> {
    inner: &'a PathPoints,
    idx: Option<usize>,
}

impl<'a> Cursor<'a> {
    /// The contour this cursor looks into.
    pub closed spec fn spec_inner(self) -> PathPoints {
        *self.inner
    }

    /// The current position, if the cursor is on a point.
    pub closed spec fn spec_idx(self) -> Option<int> {
        match self.idx {
            Some(i) => Some(i as int),
            None => None,
        }
    }

    /// A current position is always in bounds.
    pub open spec fn inv(self) -> bool {
        self.spec_idx() matches Some(i) ==> 0 <= i < self.spec_inner().spec_points().len()
    }

    /// The point at the current position.
    pub fn point(&self) -> (r: Option<&PathPoint>)
        requires
            self.inv(),
        ensures
            match self.spec_idx() {
                Some(i) => r matches Some(p) && *p == self.spec_inner().spec_points()[i],
                None => r is None,
            },
    {
        match self.idx {
            Some(i) => Some(&self.inner.as_slice()[i]),
            None => None,
        }
    }

    /// Step to the next position; at the end of an open contour the cursor
    /// leaves the points.
    pub fn move_next(&mut self)
        requires
            old(self).inv(),
        ensures
            final(self).spec_inner() == old(self).spec_inner(),
            final(self).inv(),
            final(self).spec_idx() == match old(self).spec_idx() {
                Some(i) => spec_next_idx(
                    old(self).spec_inner().spec_points().len() as int,
                    old(self).spec_inner().spec_closed(),
                    i,
                ),
                None => None::<int>,
            },
    {
        self.idx = match self.idx {
            Some(i) => self.inner.next_idx(i),
            None => None,
        };
    }

    /// Step to the previous position; at the start of an open contour the
    /// cursor leaves the points.
    pub fn move_prev(&mut self)
        requires
            old(self).inv(),
        ensures
            final(self).spec_inner() == old(self).spec_inner(),
            final(self).inv(),
            final(self).spec_idx() == match old(self).spec_idx() {
                Some(i) => spec_prev_idx(
                    old(self).spec_inner().spec_points().len() as int,
                    old(self).spec_inner().spec_closed(),
                    i,
                ),
                None => None::<int>,
            },
    {
        self.idx = match self.idx {
            Some(i) => self.inner.prev_idx(i),
            None => None,
        };
    }

    /// The point after the current one, without moving.
    pub fn peek_next(&self) -> (r: Option<&PathPoint>)
        requires
            self.inv(),
        ensures
            match self.spec_idx() {
                Some(i) => match spec_next_idx(
                    self.spec_inner().spec_points().len() as int,
                    self.spec_inner().spec_closed(),
                    i,
                ) {
                    Some(ni) => r matches Some(p) && *p == self.spec_inner().spec_points()[ni],
                    None => r is None,
                },
                None => r is None,
            },
    {
        match self.idx {
            Some(i) => match self.inner.next_idx(i) {
                Some(ni) => Some(&self.inner.as_slice()[ni]),
                None => None,
            },
            None => None,
        }
    }

    /// The point before the current one, without moving.
    pub fn peek_prev(&self) -> (r: Option<&PathPoint>)
        requires
            self.inv(),
        ensures
            match self.spec_idx() {
                Some(i) => match spec_prev_idx(
                    self.spec_inner().spec_points().len() as int,
                    self.spec_inner().spec_closed(),
                    i,
                ) {
                    Some(pi) => r matches Some(p) && *p == self.spec_inner().spec_points()[pi],
                    None => r is None,
                },
                None => r is None,
            },
    {
        match self.idx {
            Some(i) => match self.inner.prev_idx(i) {
                Some(pi) => Some(&self.inner.as_slice()[pi]),
                None => None,
            },
            None => None,
        }
    }
}

/// The sequence with `remove` elements replaced by `ins` at position `at`.
pub open spec fn splice_spec(s: Seq<PathPoint>, at: int, remove: int, ins: Seq<PathPoint>) -> Seq<
    PathPoint,
> {
    s.subrange(0, at) + ins + s.subrange(at + remove, s.len() as int)
}

/// The points a segment split inserts: the non-start points of `pre`
/// followed by the non-start points of `post`, re-scoped to the contour
/// `parent`, truncated to `n` points.
pub open spec fn split_inserted(pre: Segment, post: Segment, n: int, parent: EntityId) -> Seq<
    PathPoint,
> {
    let tail = pre.points_seq().drop_first() + post.points_seq().drop_first();
    let m = if n <= tail.len() {
        n
    } else {
        tail.len() as int
    };
    tail.take(m).map_values(|p: PathPoint| p.spec_reparented(parent))
}

/// Whether the identities of `ins` are fresh: pairwise distinct, and absent
/// from every position of `s` outside `[at, at + remove)`.
pub open spec fn fresh_outside(ins: Seq<PathPoint>, s: Seq<PathPoint>, at: int, remove: int) -> bool {
    &&& forall|a: int, b: int|
        0 <= a < b < ins.len() ==> (#[trigger] ins[a]).id.raw != (#[trigger] ins[b]).id.raw
    &&& forall|a: int, j: int|
        0 <= a < ins.len() && 0 <= j < s.len() && !(at <= j < at + remove) ==> (
        #[trigger] ins[a]).id.raw != (#[trigger] s[j]).id.raw
}

/// Freshness against the whole sequence gives freshness against any
/// retained part of it.
proof fn lemma_fresh_weaken(ins: Seq<PathPoint>, s: Seq<PathPoint>, at: int, remove: int)
    requires
        fresh_outside(ins, s, 0, 0),
    ensures
        fresh_outside(ins, s, at, remove),
{
    assert forall|a: int, j: int|
        0 <= a < ins.len() && 0 <= j < s.len() && !(at <= j < at + remove) implies (
    #[trigger] ins[a]).id.raw != (#[trigger] s[j]).id.raw by {
        assert(!(0 <= j < 0));
    }
}

/// The points a segment split inserts, determined by the old segment's
/// kind: 1 new on-curve point for a line, 5 points for a cubic.
pub open spec fn split_ins_of(old_seg: Segment, pre: Segment, post: Segment, parent: EntityId) -> Seq<
    PathPoint,
> {
    split_inserted(
        pre,
        post,
        if old_seg.spec_is_line() {
            1int
        } else {
            5int
        },
        parent,
    )
}

/// Distinct identities survive a splice whose insertion is fresh with
/// respect to the retained points.
proof fn lemma_splice_unique(s: Seq<PathPoint>, at: int, remove: int, ins: Seq<PathPoint>)
    requires
        0 <= at,
        0 <= remove,
        at + remove <= s.len(),
        ids_unique(s),
        fresh_outside(ins, s, at, remove),
    ensures
        ids_unique(splice_spec(s, at, remove, ins)),
{
    let r = splice_spec(s, at, remove, ins);
    let k = ins.len() as int;
    let n = s.len() as int;
    assert forall|i: int, j: int| 0 <= i < j < r.len() implies r[i].id.raw != r[j].id.raw by {
        if i < at {
            assert(r[i] == s[i]);
        } else if i < at + k {
            assert(r[i] == ins[i - at]);
        } else {
            assert(r[i] == s[i - k + remove]);
        }
        if j < at {
            assert(r[j] == s[j]);
        } else if j < at + k {
            assert(r[j] == ins[j - at]);
        } else {
            assert(r[j] == s[j - k + remove]);
        }
    }
}

/// Whether every point of `s` lies within magnitude `b`.
pub open spec fn points_bounded(s: Seq<PathPoint>, b: int) -> bool {
    forall|i: int| 0 <= i < s.len() ==> (#[trigger] s[i]).point.bounded(b)
}

/// Whether the identities of `r` are pairwise distinct.
pub open spec fn nodup_ids(r: Seq<EntityId>) -> bool {
    forall|i: int, j: int| 0 <= i < j < r.len() ==> r[i] != r[j]
}

/// One step of selection expansion: the identity itself (when present), then
/// its off-curve neighbors, each added unless already collected.
pub open spec fn expand_step(
    s: Seq<PathPoint>,
    closed: bool,
    acc: Seq<EntityId>,
    id: EntityId,
) -> Seq<EntityId> {
    match spec_find(s, id) {
        None => acc,
        Some(i) => {
            let len = s.len() as int;
            let acc1 = if acc.contains(id) {
                acc
            } else {
                acc.push(id)
            };
            let acc2 = match spec_prev_idx(len, closed, i) {
                Some(p) => if s[p].spec_is_off_curve() && !acc1.contains(s[p].id) {
                    acc1.push(s[p].id)
                } else {
                    acc1
                },
                None => acc1,
            };
            match spec_next_idx(len, closed, i) {
                Some(n) => if s[n].spec_is_off_curve() && !acc2.contains(s[n].id) {
                    acc2.push(s[n].id)
                } else {
                    acc2
                },
                None => acc2,
            }
        },
    }
}

/// The expansion of a selection: the requested identities together with any
/// off-curve neighbor adjacent to a selected point, without duplicates, in
/// the order encountered.
pub open spec fn spec_expand(s: Seq<PathPoint>, closed: bool, req: Seq<EntityId>) -> Seq<EntityId>
    decreases req.len(),
{
    if req.len() == 0 {
        Seq::empty()
    } else {
        expand_step(s, closed, spec_expand(s, closed, req.drop_last()), req.last())
    }
}

/// The expansion never collects an identity twice.
pub proof fn lemma_expand_nodup(s: Seq<PathPoint>, closed: bool, req: Seq<EntityId>)
    ensures
        nodup_ids(spec_expand(s, closed, req)),
    decreases req.len(),
{
    if req.len() > 0 {
        lemma_expand_nodup(s, closed, req.drop_last());
        let acc = spec_expand(s, closed, req.drop_last());
        let id = req.last();
        match spec_find(s, id) {
            None => {},
            Some(i) => {
                let len = s.len() as int;
                let acc1 = if acc.contains(id) {
                    acc
                } else {
                    acc.push(id)
                };
                lemma_push_nodup(acc, id);
                let acc2 = match spec_prev_idx(len, closed, i) {
                    Some(p) => if s[p].spec_is_off_curve() && !acc1.contains(s[p].id) {
                        acc1.push(s[p].id)
                    } else {
                        acc1
                    },
                    None => acc1,
                };
                match spec_prev_idx(len, closed, i) {
                    Some(p) => {
                        lemma_push_nodup(acc1, s[p].id);
                    },
                    None => {},
                }
                match spec_next_idx(len, closed, i) {
                    Some(n) => {
                        lemma_push_nodup(acc2, s[n].id);
                    },
                    None => {},
                }
            },
        }
    }
}

/// Pushing an identity that is not yet collected keeps the collection free
/// of duplicates.
proof fn lemma_push_nodup(acc: Seq<EntityId>, id: EntityId)
    requires
        nodup_ids(acc),
    ensures
        !acc.contains(id) ==> nodup_ids(acc.push(id)),
{
    if !acc.contains(id) {
        let r = acc.push(id);
        assert forall|i: int, j: int| 0 <= i < j < r.len() implies r[i] != r[j] by {
            if j < r.len() - 1 {
                assert(r[i] == acc[i] && r[j] == acc[j]);
            } else {
                assert(r[i] == acc[i]);
                assert(acc.contains(acc[i]));
            }
        }
    }
}

/// One step of `transform_points`: the point moves to its image under the
/// transform, and its tangent partner, when it exists and was not itself
/// selected, is re-angled to stay collinear.
pub open spec fn spec_transform_step(
    s: Seq<PathPoint>,
    closed: bool,
    t: crate::design_space::Transform,
    anchor: DPoint,
    tx: Seq<EntityId>,
    pid: EntityId,
) -> Seq<PathPoint> {
    let s1 = match spec_find(s, pid) {
        Some(i) => s.update(i, PathPoint { point: t.spec_apply(anchor, s[i].point), ..s[i] }),
        None => s,
    };
    match spec_tangent_handle_opt(s1, closed, pid) {
        Some((oc, h2opt)) => match h2opt {
            Some(h2) => if !tx.contains(h2) {
                spec_adjusted(s1, pid, oc, h2)
            } else {
                s1
            },
            None => s1,
        },
        None => s1,
    }
}

/// The sequence after the first `k` identities of the expanded selection
/// have been transformed, in order.
pub open spec fn spec_transform_fold(
    s: Seq<PathPoint>,
    closed: bool,
    t: crate::design_space::Transform,
    anchor: DPoint,
    tx: Seq<EntityId>,
    k: int,
) -> Seq<PathPoint>
    decreases k,
{
    if k <= 0 {
        s
    } else {
        spec_transform_step(
            spec_transform_fold(s, closed, t, anchor, tx, k - 1),
            closed,
            t,
            anchor,
            tx,
            tx[k - 1],
        )
    }
}

/// `spec_find` depends only on identities: two sequences with the same
/// identities position for position answer every lookup alike.
pub proof fn lemma_spec_find_same_ids(s: Seq<PathPoint>, s2: Seq<PathPoint>, id: EntityId)
    requires
        s.len() == s2.len(),
        forall|i: int| 0 <= i < s.len() ==> (#[trigger] s[i]).id == s2[i].id,
    ensures
        spec_find(s, id) == spec_find(s2, id),
    decreases s.len(),
{
    if s.len() > 0 {
        let d = s.drop_first();
        let d2 = s2.drop_first();
        assert forall|i: int| 0 <= i < d.len() implies (#[trigger] d[i]).id == d2[i].id by {
            assert(d[i] == s[i + 1]);
            assert(d2[i] == s2[i + 1]);
            assert(s[i + 1].id == s2[i + 1].id);
        }
        lemma_spec_find_same_ids(d, d2, id);
        assert(s[0].id == s2[0].id);
    }
}

/// The on-curve neighbor of the off-curve point at `i`: the next stored
/// point if it is on-curve, otherwise the previous one if it is on-curve.
pub open spec fn spec_tangent_on(s: Seq<PathPoint>, closed: bool, i: int) -> Option<int> {
    let len = s.len() as int;
    let nxt = spec_next_idx(len, closed, i);
    let prv = spec_prev_idx(len, closed, i);
    if nxt matches Some(n) && s[n].spec_is_on_curve() {
        Some(nxt->Some_0)
    } else if prv matches Some(p) && s[p].spec_is_on_curve() {
        Some(prv->Some_0)
    } else {
        None
    }
}

/// The other off-curve handle of the on-curve point at `oc`, distinct from
/// the handle at `h`: the next stored point if it qualifies, otherwise the
/// previous one.
pub open spec fn spec_other_handle(s: Seq<PathPoint>, closed: bool, oc: int, h: int) -> Option<
    int,
> {
    let len = s.len() as int;
    let nxt = spec_next_idx(len, closed, oc);
    let prv = spec_prev_idx(len, closed, oc);
    if nxt matches Some(n) && s[n].spec_is_off_curve() && s[n].id != s[h].id {
        Some(nxt->Some_0)
    } else if prv matches Some(p) && s[p].spec_is_off_curve() && s[p].id != s[h].id {
        Some(prv->Some_0)
    } else {
        None
    }
}

/// For an off-curve handle, its on-curve neighbor's identity and, when that
/// neighbor is smooth and its other neighbor is also off-curve, the
/// identity of that tangent partner handle. `None` when the identity is
/// absent, names an on-curve point, or the handle has no on-curve neighbor.
pub open spec fn spec_tangent_handle_opt(s: Seq<PathPoint>, closed: bool, hid: EntityId) -> Option<
    (EntityId, Option<EntityId>),
> {
    match spec_find(s, hid) {
        None => None,
        Some(i) => if !s[i].spec_is_off_curve() {
            None
        } else {
            match spec_tangent_on(s, closed, i) {
                None => None,
                Some(oc) => if s[oc].spec_is_smooth() {
                    Some(
                        (
                            s[oc].id,
                            match spec_other_handle(s, closed, oc, i) {
                                Some(h2) => Some(s[h2].id),
                                None => None,
                            },
                        ),
                    )
                } else {
                    Some((s[oc].id, None))
                },
            }
        },
    }
}

/// The sequence after the tangent partner `bcp2` is re-angled in response
/// to a movement of `bcp1`: `bcp2` is placed collinear with the on-curve
/// point and `bcp1`, on the opposite side, at its own prior distance. The
/// sequence is unchanged when any of the three identities is absent, when
/// `bcp1` sits on the on-curve point (no direction), or when a coordinate
/// lies beyond the arithmetic range the crate supports.
pub open spec fn spec_adjusted(
    s: Seq<PathPoint>,
    bcp1: EntityId,
    on_curve: EntityId,
    bcp2: EntityId,
) -> Seq<PathPoint> {
    match (spec_find(s, bcp1), spec_find(s, on_curve), spec_find(s, bcp2)) {
        (Some(i1), Some(i2), Some(i3)) => {
            let p1 = s[i1].point;
            let p2 = s[i2].point;
            let p3 = s[i3].point;
            if p1.bounded(crate::design_space::COORD_LIMIT as int) && p2.bounded(
                crate::design_space::COORD_LIMIT as int,
            ) && p3.bounded(crate::design_space::COORD_LIMIT as int) {
                match crate::design_space::spec_tangent_mirror(p1, p2, p3) {
                    Some(q) => s.update(i3, PathPoint { point: q, ..s[i3] }),
                    None => s,
                }
            } else {
                s
            }
        },
        _ => s,
    }
}

/// The sequence after `update_handle`: the handle moves to the new
/// position (axis-locked through its on-curve neighbor when asked), and an
/// existing tangent partner is re-angled to stay collinear at its own
/// distance.
pub open spec fn spec_update_handle(
    s: Seq<PathPoint>,
    closed: bool,
    bcp1: EntityId,
    dpt: DPoint,
    is_locked: bool,
) -> Seq<PathPoint> {
    match spec_tangent_handle_opt(s, closed, bcp1) {
        None => s,
        Some((oc_id, h2_opt)) => match spec_find(s, oc_id) {
            None => s,
            Some(oci) => {
                let d = if is_locked {
                    dpt.spec_axis_locked_to(s[oci].point)
                } else {
                    dpt
                };
                let s1 = match spec_find(s, bcp1) {
                    Some(i1) => s.update(i1, PathPoint { point: d, ..s[i1] }),
                    None => s,
                };
                match h2_opt {
                    None => s1,
                    Some(h2) => spec_adjusted(s1, bcp1, oc_id, h2),
                }
            },
        },
    }
}

/// Whether two sequences carry the same identities and roles position for
/// position: they differ at most in coordinates.
pub open spec fn same_ids_roles(s: Seq<PathPoint>, s2: Seq<PathPoint>) -> bool {
    s2.len() == s.len() && forall|j: int|
        0 <= j < s.len() ==> (#[trigger] s2[j]).id == s[j].id && s2[j].typ == s[j].typ
}

/// A well-formed contour stays well formed under any change that only moves
/// points.
pub proof fn lemma_wf_same_roles(s: Seq<PathPoint>, s2: Seq<PathPoint>, closed: bool)
    requires
        same_ids_roles(s, s2),
        contour_ok(s, closed),
    ensures
        contour_ok(s2, closed),
{
    assert forall|j: int| 0 <= j < s.len() implies (#[trigger] s2[j]).typ == s[j].typ by {}
    if closed {
        assert(s2.last().typ == s.last().typ);
        crate::segment::lemma_valid_tail_same_roles(s, s2, 0);
    } else {
        assert(s2[0].typ == s[0].typ);
        crate::segment::lemma_valid_tail_same_roles(s, s2, 1);
    }
}

/// A handle adjustment only moves the partner: identities and roles stay.
pub proof fn lemma_adjusted_same_ids_roles(
    s: Seq<PathPoint>,
    bcp1: EntityId,
    on_curve: EntityId,
    bcp2: EntityId,
)
    ensures
        same_ids_roles(s, spec_adjusted(s, bcp1, on_curve, bcp2)),
{
    lemma_spec_find(s, bcp2);
    let r = spec_adjusted(s, bcp1, on_curve, bcp2);
    match (spec_find(s, bcp1), spec_find(s, on_curve), spec_find(s, bcp2)) {
        (Some(i1), Some(i2), Some(i3)) => {
            let p1 = s[i1].point;
            let p2 = s[i2].point;
            let p3 = s[i3].point;
            if p1.bounded(crate::design_space::COORD_LIMIT as int) && p2.bounded(
                crate::design_space::COORD_LIMIT as int,
            ) && p3.bounded(crate::design_space::COORD_LIMIT as int) {
                match crate::design_space::spec_tangent_mirror(p1, p2, p3) {
                    Some(q) => {
                        assert(r == s.update(i3, PathPoint { point: q, ..s[i3] }));
                        assert forall|j: int| 0 <= j < s.len() implies (#[trigger] r[j]).id
                            == s[j].id && r[j].typ == s[j].typ by {
                            if j != i3 {
                                assert(r[j] == s[j]);
                            }
                        }
                    },
                    None => {
                        assert(r == s);
                    },
                }
            } else {
                assert(r == s);
            }
        },
        _ => {
            assert(r == s);
        },
    }
}

/// A handle update only moves points: identities and roles stay.
pub proof fn lemma_update_handle_same_ids_roles(
    s: Seq<PathPoint>,
    closed: bool,
    bcp1: EntityId,
    dpt: DPoint,
    is_locked: bool,
)
    ensures
        same_ids_roles(s, spec_update_handle(s, closed, bcp1, dpt, is_locked)),
{
    match spec_tangent_handle_opt(s, closed, bcp1) {
        None => {},
        Some((oc_id, h2_opt)) => {
            match spec_find(s, oc_id) {
                None => {},
                Some(oci) => {
                    let d = if is_locked {
                        dpt.spec_axis_locked_to(s[oci].point)
                    } else {
                        dpt
                    };
                    let s1 = match spec_find(s, bcp1) {
                        Some(i1) => s.update(i1, PathPoint { point: d, ..s[i1] }),
                        None => s,
                    };
                    lemma_spec_find(s, bcp1);
                    assert forall|j: int| 0 <= j < s.len() implies (#[trigger] s1[j]).id == s[j].id
                        && s1[j].typ == s[j].typ by {
                        if spec_find(s, bcp1) is Some && j != spec_find(s, bcp1)->Some_0 {
                            assert(s1[j] == s[j]);
                        }
                    }
                    assert(same_ids_roles(s, s1));
                    match h2_opt {
                        None => {},
                        Some(h2) => {
                            lemma_adjusted_same_ids_roles(s1, bcp1, oc_id, h2);
                        },
                    }
                },
            }
        },
    }
}

/// One transform step only moves points: identities and roles stay.
pub proof fn lemma_transform_step_same_ids_roles(
    s: Seq<PathPoint>,
    closed: bool,
    t: crate::design_space::Transform,
    anchor: DPoint,
    tx: Seq<EntityId>,
    pid: EntityId,
)
    ensures
        same_ids_roles(s, spec_transform_step(s, closed, t, anchor, tx, pid)),
{
    let s1 = match spec_find(s, pid) {
        Some(i) => s.update(i, PathPoint { point: t.spec_apply(anchor, s[i].point), ..s[i] }),
        None => s,
    };
    lemma_spec_find(s, pid);
    assert forall|j: int| 0 <= j < s.len() implies (#[trigger] s1[j]).id == s[j].id && s1[j].typ
        == s[j].typ by {
        if spec_find(s, pid) is Some && j != spec_find(s, pid)->Some_0 {
            assert(s1[j] == s[j]);
        }
    }
    assert(same_ids_roles(s, s1));
    match spec_tangent_handle_opt(s1, closed, pid) {
        Some((oc, h2opt)) => match h2opt {
            Some(h2) => {
                if !tx.contains(h2) {
                    lemma_adjusted_same_ids_roles(s1, pid, oc, h2);
                }
            },
            None => {},
        },
        None => {},
    }
}

/// A whole selection transform only moves points: identities and roles stay.
pub proof fn lemma_transform_fold_same_ids_roles(
    s: Seq<PathPoint>,
    closed: bool,
    t: crate::design_space::Transform,
    anchor: DPoint,
    tx: Seq<EntityId>,
    k: int,
)
    ensures
        same_ids_roles(s, spec_transform_fold(s, closed, t, anchor, tx, k)),
    decreases k,
{
    if k > 0 {
        lemma_transform_fold_same_ids_roles(s, closed, t, anchor, tx, k - 1);
        lemma_transform_step_same_ids_roles(
            spec_transform_fold(s, closed, t, anchor, tx, k - 1),
            closed,
            t,
            anchor,
            tx,
            tx[k - 1],
        );
    }
}

/// The deletion closure of one requested identity: the point itself; for an
/// off-curve point also its off-curve sibling (the other control of the same
/// cubic); for an on-curve point whose two neighbors are both off-curve,
/// both neighbors (a vertex's handles cannot survive without their vertex);
/// for an on-curve point at an open boundary whose adjacent neighbor is
/// off-curve, that neighbor and its sibling (the whole control pair is
/// orphaned). An absent identity contributes nothing.
pub open spec fn spec_delete_closure_one(s: Seq<PathPoint>, closed: bool, id: EntityId) -> Seq<
    EntityId,
> {
    match spec_find(s, id) {
        None => Seq::empty(),
        Some(i) => {
            let len = s.len() as int;
            let prv = spec_prev_idx(len, closed, i);
            let nxt = spec_next_idx(len, closed, i);
            let base = seq![s[i].id];
            if s[i].spec_is_off_curve() {
                if prv matches Some(p) && s[p].spec_is_off_curve() {
                    base.push(s[prv->Some_0].id)
                } else if nxt matches Some(n) && s[n].spec_is_off_curve() {
                    base.push(s[nxt->Some_0].id)
                } else {
                    base
                }
            } else {
                if (prv matches Some(p) && s[p].spec_is_off_curve()) && (nxt matches Some(n)
                    && s[n].spec_is_off_curve()) {
                    base.push(s[prv->Some_0].id).push(s[nxt->Some_0].id)
                } else if prv is None && (nxt matches Some(n) && s[n].spec_is_off_curve()) {
                    let n = nxt->Some_0;
                    let b2 = base.push(s[n].id);
                    match spec_next_idx(len, closed, n) {
                        Some(n2) => if s[n2].spec_is_off_curve() {
                            b2.push(s[n2].id)
                        } else {
                            b2
                        },
                        None => b2,
                    }
                } else if nxt is None && (prv matches Some(p) && s[p].spec_is_off_curve()) {
                    let p = prv->Some_0;
                    let b2 = base.push(s[p].id);
                    match spec_prev_idx(len, closed, p) {
                        Some(p2) => if s[p2].spec_is_off_curve() {
                            b2.push(s[p2].id)
                        } else {
                            b2
                        },
                        None => b2,
                    }
                } else {
                    base
                }
            }
        },
    }
}

/// The union of the deletion closures of all requested identities, computed
/// against the original sequence and removed in one pass.
pub open spec fn spec_delete_set(s: Seq<PathPoint>, closed: bool, req: Seq<EntityId>) -> Seq<
    EntityId,
>
    decreases req.len(),
{
    if req.len() == 0 {
        Seq::empty()
    } else {
        spec_delete_set(s, closed, req.drop_last()) + spec_delete_closure_one(
            s,
            closed,
            req.last(),
        )
    }
}

/// The sequence with every point whose identity is in `del` removed.
pub open spec fn remove_ids(s: Seq<PathPoint>, del: Seq<EntityId>) -> Seq<PathPoint>
    decreases s.len(),
{
    if s.len() == 0 {
        s
    } else {
        let rest = remove_ids(s.drop_last(), del);
        if del.contains(s.last().id) {
            rest
        } else {
            rest.push(s.last())
        }
    }
}

/// Removal keeps identities distinct and scoped: everything retained was
/// already there.
pub proof fn lemma_remove_ids_unique(s: Seq<PathPoint>, del: Seq<EntityId>)
    requires
        ids_unique(s),
    ensures
        ids_unique(remove_ids(s, del)),
        forall|x: PathPoint| remove_ids(s, del).contains(x) ==> s.contains(x),
        remove_ids(s, del).len() <= s.len(),
    decreases s.len(),
{
    if s.len() > 0 {
        let d = s.drop_last();
        assert forall|a: int, b: int| 0 <= a < b < d.len() implies d[a].id.raw != d[b].id.raw by {
            assert(d[a] == s[a]);
            assert(d[b] == s[b]);
        }
        lemma_remove_ids_unique(d, del);
        let rest = remove_ids(d, del);
        assert forall|x: PathPoint| rest.contains(x) implies s.contains(x) by {
            assert(d.contains(x));
            let j = choose|j: int| 0 <= j < d.len() && d[j] == x;
            assert(s[j] == x);
            assert(s.contains(x));
        }
        if !del.contains(s.last().id) {
            let r = rest.push(s.last());
            assert forall|a: int, b: int| 0 <= a < b < r.len() implies r[a].id.raw
                != r[b].id.raw by {
                if b < r.len() - 1 {
                    assert(rest[a].id.raw != rest[b].id.raw);
                } else {
                    assert(r[a] == rest[a]);
                    assert(rest.contains(rest[a]));
                    assert(d.contains(rest[a]));
                    let i = choose|i: int| 0 <= i < d.len() && d[i] == rest[a];
                    assert(d[i] == s[i]);
                    assert(s[i].id.raw != s[s.len() - 1].id.raw);
                }
            }
            assert forall|x: PathPoint| r.contains(x) implies s.contains(x) by {
                let i = choose|i: int| 0 <= i < r.len() && r[i] == x;
                if i < r.len() - 1 {
                    assert(rest[i] == x);
                    assert(rest.contains(x));
                    assert(s.contains(x));
                } else {
                    assert(s[s.len() - 1] == x);
                    assert(s.contains(x));
                }
            }
        }
    }
}

/// The smooth-to-corner fixup after a deletion: an on-curve smooth point
/// whose two neighbors are now both on-curve (it lost its handles) becomes
/// a corner; everything else is untouched.
pub open spec fn fixup_at(s: Seq<PathPoint>, closed: bool, i: int) -> PathPoint {
    let len = s.len() as int;
    let prev_on = match spec_prev_idx(len, closed, i) {
        Some(p) => s[p].spec_is_on_curve(),
        None => false,
    };
    let next_on = match spec_next_idx(len, closed, i) {
        Some(n) => s[n].spec_is_on_curve(),
        None => false,
    };
    if s[i].spec_is_smooth() && prev_on && next_on {
        s[i].spec_toggled()
    } else {
        s[i]
    }
}

/// The whole sequence after the smooth-to-corner fixup.
pub open spec fn smooth_fixup(s: Seq<PathPoint>, closed: bool) -> Seq<PathPoint> {
    Seq::new(s.len(), |i: int| fixup_at(s, closed, i))
}

/// One pass that repairs the alternation after a removal: from position
/// `i` on, every on-curve point is kept, a complete pair of off-curve
/// control points closed by an on-curve point is kept, and any other
/// off-curve point — an orphaned handle left by overlapping deletion
/// closures — is dropped.
pub open spec fn repair_from(s: Seq<PathPoint>, i: int) -> Seq<PathPoint>
    decreases s.len() - i,
{
    if i >= s.len() {
        Seq::empty()
    } else if s[i].spec_is_on_curve() {
        seq![s[i]] + repair_from(s, i + 1)
    } else if i + 2 < s.len() && s[i + 1].spec_is_off_curve() && s[i
        + 2].spec_is_on_curve() {
        seq![s[i], s[i + 1], s[i + 2]] + repair_from(s, i + 3)
    } else {
        repair_from(s, i + 1)
    }
}

/// The repair of an open contour additionally drops leading control
/// points, so the first stored point is on-curve.
pub open spec fn repair_open(s: Seq<PathPoint>) -> Seq<PathPoint> {
    match spec_first_on(s) {
        None => Seq::empty(),
        Some(k) => seq![s[k]] + repair_from(s, k + 1),
    }
}

/// The repair produces a valid alternation that ends on-curve.
pub proof fn lemma_repair_from_valid(s: Seq<PathPoint>, i: int)
    requires
        0 <= i,
    ensures
        valid_tail(repair_from(s, i), 0),
        repair_from(s, i).len() > 0 ==> repair_from(s, i).last().spec_is_on_curve(),
    decreases s.len() + 1 - i,
{
    if i < s.len() {
        if s[i].spec_is_on_curve() {
            lemma_repair_from_valid(s, i + 1);
            let rest = repair_from(s, i + 1);
            let r = repair_from(s, i);
            assert(r == seq![s[i]] + rest);
            assert forall|d: int| 0 <= d < r.len() - 1 implies #[trigger] r[1 + d] == rest[d] by {}
            crate::segment::lemma_valid_tail_congruent(r, rest, 1, 0);
            if rest.len() > 0 {
                assert(r.last() == rest.last());
            } else {
                assert(r.last() == s[i]);
            }
        } else if i + 2 < s.len() && s[i + 1].spec_is_off_curve() && s[i
            + 2].spec_is_on_curve() {
            lemma_repair_from_valid(s, i + 3);
            let rest = repair_from(s, i + 3);
            let r = repair_from(s, i);
            assert(r == seq![s[i], s[i + 1], s[i + 2]] + rest);
            assert forall|d: int| 0 <= d < r.len() - 3 implies #[trigger] r[3 + d] == rest[d] by {}
            crate::segment::lemma_valid_tail_congruent(r, rest, 3, 0);
            assert(r[0] == s[i] && r[1] == s[i + 1] && r[2] == s[i + 2]);
            if rest.len() > 0 {
                assert(r.last() == rest.last());
            } else {
                assert(r.last() == s[i + 2]);
            }
        } else {
            lemma_repair_from_valid(s, i + 1);
        }
    }
}

/// Everything the repair keeps was already there, at or after the start
/// position.
pub proof fn lemma_repair_from_sub(s: Seq<PathPoint>, i: int)
    requires
        0 <= i,
    ensures
        forall|x: PathPoint|
            repair_from(s, i).contains(x) ==> exists|j: int| i <= j < s.len() && s[j] == x,
    decreases s.len() + 1 - i,
{
    if i < s.len() {
        let r = repair_from(s, i);
        if s[i].spec_is_on_curve() {
            lemma_repair_from_sub(s, i + 1);
            assert forall|x: PathPoint| r.contains(x) implies exists|j: int|
                i <= j < s.len() && s[j] == x by {
                let a = choose|a: int| 0 <= a < r.len() && r[a] == x;
                if a == 0 {
                    assert(s[i] == x);
                } else {
                    assert(repair_from(s, i + 1)[a - 1] == x);
                    assert(repair_from(s, i + 1).contains(x));
                    let j = choose|j: int| i + 1 <= j < s.len() && s[j] == x;
                    assert(i <= j < s.len() && s[j] == x);
                }
            }
        } else if i + 2 < s.len() && s[i + 1].spec_is_off_curve() && s[i
            + 2].spec_is_on_curve() {
            lemma_repair_from_sub(s, i + 3);
            assert forall|x: PathPoint| r.contains(x) implies exists|j: int|
                i <= j < s.len() && s[j] == x by {
                let a = choose|a: int| 0 <= a < r.len() && r[a] == x;
                if a < 3 {
                    assert(s[i + a] == x);
                } else {
                    assert(repair_from(s, i + 3)[a - 3] == x);
                    assert(repair_from(s, i + 3).contains(x));
                    let j = choose|j: int| i + 3 <= j < s.len() && s[j] == x;
                    assert(i <= j < s.len() && s[j] == x);
                }
            }
        } else {
            lemma_repair_from_sub(s, i + 1);
            assert forall|x: PathPoint| r.contains(x) implies exists|j: int|
                i <= j < s.len() && s[j] == x by {
                assert(repair_from(s, i + 1).contains(x));
                let j = choose|j: int| i + 1 <= j < s.len() && s[j] == x;
                assert(i <= j < s.len() && s[j] == x);
            }
        }
    }
}

/// The repair keeps identities distinct.
pub proof fn lemma_repair_from_unique(s: Seq<PathPoint>, i: int)
    requires
        0 <= i,
        ids_unique(s),
    ensures
        ids_unique(repair_from(s, i)),
    decreases s.len() + 1 - i,
{
    if i < s.len() {
        let r = repair_from(s, i);
        let kept: int = if s[i].spec_is_on_curve() {
            1
        } else if i + 2 < s.len() && s[i + 1].spec_is_off_curve() && s[i
            + 2].spec_is_on_curve() {
            3
        } else {
            0
        };
        if kept == 0 {
            lemma_repair_from_unique(s, i + 1);
        } else {
            let rest = repair_from(s, i + kept);
            lemma_repair_from_unique(s, i + kept);
            lemma_repair_from_sub(s, i + kept);
            assert forall|a: int, b: int| 0 <= a < b < r.len() implies r[a].id.raw
                != r[b].id.raw by {
                if a >= kept && b >= kept {
                    assert(r[a] == rest[a - kept] && r[b] == rest[b - kept]);
                } else if b >= kept {
                    assert(r[a] == s[i + a]);
                    assert(r[b] == rest[b - kept]);
                    assert(rest.contains(rest[b - kept]));
                    let j = choose|j: int| i + kept <= j < s.len() && s[j] == rest[b - kept];
                    assert(s[i + a].id.raw != s[j].id.raw);
                } else {
                    assert(r[a] == s[i + a] && r[b] == s[i + b]);
                }
            }
        }
    }
}

/// The repair keeps every on-curve point, so it is never empty while one
/// exists.
pub proof fn lemma_repair_from_keeps_on(s: Seq<PathPoint>, i: int, j: int)
    requires
        0 <= i <= j < s.len(),
        s[j].spec_is_on_curve(),
    ensures
        repair_from(s, i).len() > 0,
    decreases j - i,
{
    if !s[i].spec_is_on_curve() {
        if !(i + 2 < s.len() && s[i + 1].spec_is_off_curve() && s[i + 2].spec_is_on_curve()) {
            assert(i != j);
            lemma_repair_from_keeps_on(s, i + 1, j);
        }
    }
}

/// A repair result that holds any off-curve point holds a whole pair with
/// its closing vertex, so it has at least three points.
pub proof fn lemma_repair_from_off_len(s: Seq<PathPoint>, i: int)
    requires
        0 <= i,
    ensures
        forall|j: int|
            0 <= j < repair_from(s, i).len() && (#[trigger] repair_from(s, i)[j]).spec_is_off_curve()
                ==> repair_from(s, i).len() >= 3,
    decreases s.len() + 1 - i,
{
    if i < s.len() {
        let r = repair_from(s, i);
        if s[i].spec_is_on_curve() {
            lemma_repair_from_off_len(s, i + 1);
            let rest = repair_from(s, i + 1);
            assert forall|j: int| 0 <= j < r.len() && (#[trigger] r[j]).spec_is_off_curve() implies
                r.len() >= 3 by {
                assert(r[0] == s[i]);
                assert(j != 0);
                assert(r[j] == rest[j - 1]);
                assert(rest[j - 1].spec_is_off_curve());
                assert(rest.len() >= 3);
            }
        } else if i + 2 < s.len() && s[i + 1].spec_is_off_curve() && s[i
            + 2].spec_is_on_curve() {
            assert(r.len() >= 3);
        } else {
            lemma_repair_from_off_len(s, i + 1);
        }
    }
}

/// The stored points after `delete_points`, before the closed flag is
/// re-derived: the closure members are removed, a closed contour is
/// re-normalized so an on-curve point is last, and orphaned handles are
/// repaired away so the alternation invariant holds again.
pub open spec fn spec_after_removal(
    s: Seq<PathPoint>,
    closed: bool,
    req: Seq<EntityId>,
) -> Seq<PathPoint> {
    let s2 = remove_ids(s, spec_delete_set(s, closed, req));
    if closed {
        repair_from(normalize_closed(s2), 0)
    } else {
        repair_open(s2)
    }
}

/// The full result of `delete_points`: removal, renormalization, the
/// closed flag dropped when fewer than three points remain, and the
/// smooth-to-corner fixup.
pub open spec fn spec_delete_points(
    s: Seq<PathPoint>,
    closed: bool,
    req: Seq<EntityId>,
) -> (Seq<PathPoint>, bool) {
    let s3 = spec_after_removal(s, closed, req);
    let closed2 = closed && s3.len() >= 3;
    (smooth_fixup(s3, closed2), closed2)
}

/// The structural invariants of a valid contour, in one place: the
/// canonical start is on-curve (the last stored point when closed, the
/// first when open, and an open contour also ends on-curve), and between
/// any two consecutive on-curve points stand exactly zero or two off-curve
/// control points — every off-curve run is a complete pair closed by an
/// on-curve point.
pub proof fn lemma_contour_invariants(points: Seq<PathPoint>, closed: bool)
    requires
        contour_ok(points, closed),
    ensures
        closed ==> points.last().spec_is_on_curve(),
        !closed ==> points[0].spec_is_on_curve() && points.last().spec_is_on_curve(),
        forall|i: int|
            0 <= i < points.len() && (#[trigger] points[i]).spec_is_off_curve() && (i == 0 || points[i
                - 1].spec_is_on_curve()) ==> i + 2 < points.len() && points[i
                + 1].spec_is_off_curve() && points[i + 2].spec_is_on_curve(),
{
    if closed {
        crate::segment::lemma_valid_tail_off_runs(points, 0);
    } else {
        crate::segment::lemma_valid_tail_off_runs(points, 1);
        if points.len() > 1 {
            crate::segment::lemma_valid_tail_last_on(points, 1);
        }
        assert forall|i: int|
            0 <= i < points.len() && (#[trigger] points[i]).spec_is_off_curve() && (i == 0 || points[i
                - 1].spec_is_on_curve()) implies i + 2 < points.len() && points[i
            + 1].spec_is_off_curve() && points[i + 2].spec_is_on_curve() by {
            assert(i != 0);
        }
    }
}

/// Reversing a well-formed contour leaves a well-formed contour: the
/// canonical start of a closed contour stays in place, and reading every
/// off-curve pair backwards still gives a complete pair.
pub proof fn lemma_reverse_contour_ok(s: Seq<PathPoint>, closed: bool)
    requires
        contour_ok(s, closed),
    ensures
        contour_ok(
            if closed {
                s.drop_last().reverse().push(s.last())
            } else {
                s.reverse()
            },
            closed,
        ),
{
    let n = s.len() as int;
    if closed {
        let r = s.drop_last().reverse().push(s.last());
        assert(r.len() == n);
        assert(r.last() == s[n - 1]);
        lemma_valid_tail_off_pairs(s, 0);
        assert forall|i: int|
            0 <= i < n && (#[trigger] r[i]).spec_is_off_curve() && (i == 0 || r[i
                - 1].spec_is_on_curve()) implies i + 2 < n && r[i + 1].spec_is_off_curve() && r[i
            + 2].spec_is_on_curve() by {
            assert(r[n - 1] == s[n - 1]);
            assert(i < n - 1);
            let j = n - 2 - i;
            assert(r[i] == s[j]);
            assert(s[j].spec_is_off_curve());
            if i == 0 {
                assert(s[j + 1] == s[n - 1]);
            } else {
                assert(r[i - 1] == s[j + 1]);
            }
            assert(s[j + 1].spec_is_on_curve());
            // a pair's first member is followed by its partner, so `j` can
            // only be the second member
            assert(0 <= j - 1 && s[j - 1].spec_is_off_curve() && (j - 1 == 0 || s[j
                - 2].spec_is_on_curve()));
            assert(r[i + 1] == s[j - 1]);
            if j - 1 == 0 {
                assert(i + 2 == n - 1);
                assert(r[i + 2] == s[n - 1]);
            } else {
                assert(r[i + 2] == s[j - 2]);
            }
        }
        crate::segment::lemma_off_runs_to_valid(r, 0);
    } else {
        let r = s.reverse();
        assert(r.len() == n);
        assert(r[0] == s[n - 1]);
        if n > 1 {
            crate::segment::lemma_valid_tail_last_on(s, 1);
        }
        lemma_valid_tail_off_pairs(s, 1);
        assert forall|i: int|
            1 <= i < n && (#[trigger] r[i]).spec_is_off_curve() && (i == 1 || r[i
                - 1].spec_is_on_curve()) implies i + 2 < n && r[i + 1].spec_is_off_curve() && r[i
            + 2].spec_is_on_curve() by {
            let j = n - 1 - i;
            assert(r[i] == s[j]);
            assert(s[j].spec_is_off_curve());
            assert(j >= 1);
            if i == 1 {
                assert(r[0] == s[j + 1]);
            } else {
                assert(r[i - 1] == s[j + 1]);
            }
            assert(s[j + 1].spec_is_on_curve());
            assert(1 <= j - 1 && s[j - 1].spec_is_off_curve() && (j - 1 == 1 || s[j
                - 2].spec_is_on_curve()));
            assert(r[i + 1] == s[j - 1]);
            assert(r[i + 2] == s[j - 2]);
            if j - 2 == 0 {
                assert(s[0].spec_is_on_curve());
            }
        }
        crate::segment::lemma_off_runs_to_valid(r, 1);
    }
}

/// Whatever removal keeps, it keeps exactly: a point whose identity is not
/// deleted is still there.
pub proof fn lemma_remove_ids_retains(s: Seq<PathPoint>, del: Seq<EntityId>)
    ensures
        forall|i: int|
            0 <= i < s.len() && !del.contains((#[trigger] s[i]).id) ==> remove_ids(
                s,
                del,
            ).contains(s[i]),
    decreases s.len(),
{
    if s.len() > 0 {
        let d = s.drop_last();
        lemma_remove_ids_retains(d, del);
        let rest = remove_ids(d, del);
        let r = remove_ids(s, del);
        assert forall|i: int|
            0 <= i < s.len() && !del.contains((#[trigger] s[i]).id) implies r.contains(s[i]) by {
            if i < s.len() - 1 {
                assert(d[i] == s[i]);
                assert(rest.contains(s[i]));
                let j = choose|j: int| 0 <= j < rest.len() && rest[j] == s[i];
                if del.contains(s.last().id) {
                    assert(r == rest);
                } else {
                    assert(r == rest.push(s.last()));
                    assert(r[j] == s[i]);
                }
                assert(r.contains(s[i]));
            } else {
                assert(r == rest.push(s.last()));
                assert(r.last() == s[i]);
            }
        }
    }
}

/// Deleting an on-curve point at the open boundary of a contour orphans the
/// whole adjacent control pair: the deletion closure of the first point of
/// an open contour that starts `on, off, off` is exactly those three
/// points, and a later point is retained.
pub proof fn lemma_delete_orphaned_pair(s: Seq<PathPoint>, j: int)
    requires
        s.len() >= 4,
        ids_unique(s),
        s[0].spec_is_on_curve(),
        s[1].spec_is_off_curve(),
        s[2].spec_is_off_curve(),
        3 <= j < s.len(),
    ensures
        spec_delete_closure_one(s, false, s[0].id) == seq![s[0].id, s[1].id, s[2].id],
        remove_ids(s, spec_delete_set(s, false, seq![s[0].id])).contains(s[j]),
{
    let del1 = spec_delete_closure_one(s, false, s[0].id);
    assert(spec_find(s, s[0].id) == Some(0int));
    assert(del1 =~= seq![s[0].id, s[1].id, s[2].id]);
    let req = seq![s[0].id];
    let del = spec_delete_set(s, false, req);
    assert(req.len() == 1 && req.last() == s[0].id);
    let e = req.drop_last();
    assert(e.len() == 0);
    assert(spec_delete_set(s, false, e) == Seq::<EntityId>::empty());
    assert(del == Seq::<EntityId>::empty() + spec_delete_closure_one(s, false, s[0].id));
    assert(del =~= del1);
    lemma_remove_ids_retains(s, del);
    assert forall|a: int| 0 <= a < 3 implies s[j].id != del1[a] by {
        assert(del1[a] == s[a].id);
    }
    if del.contains(s[j].id) {
        let a = choose|a: int| 0 <= a < del.len() && del[a] == s[j].id;
        assert(s[j].id != del1[a]);
    }
}

/// A well-formed contour stays well formed under any change that keeps
/// each point's on-curve-ness, such as the smooth-to-corner fixup.
pub proof fn lemma_wf_same_onness(s: Seq<PathPoint>, s2: Seq<PathPoint>, closed: bool)
    requires
        s2.len() == s.len(),
        forall|j: int|
            0 <= j < s.len() ==> (#[trigger] s2[j]).spec_is_on_curve() == s[j].spec_is_on_curve(),
        contour_ok(s, closed),
    ensures
        contour_ok(s2, closed),
{
    if closed {
        assert(s2.last().spec_is_on_curve() == s.last().spec_is_on_curve());
        crate::segment::lemma_valid_tail_same_onness(s, s2, 0);
    } else {
        assert(s2[0].spec_is_on_curve() == s[0].spec_is_on_curve());
        crate::segment::lemma_valid_tail_same_onness(s, s2, 1);
    }
}

/// Deletion restores the structural invariants: whenever an on-curve point
/// survives the removal, the result is a well-formed contour again — the
/// canonical start is on-curve on either side of the closed flag, and
/// every off-curve run is a complete pair.
pub proof fn lemma_delete_restores_invariants(s: Seq<PathPoint>, closed: bool, req: Seq<EntityId>)
    requires
        spec_first_on(remove_ids(s, spec_delete_set(s, closed, req))) is Some,
    ensures
        contour_ok(spec_delete_points(s, closed, req).0, spec_delete_points(s, closed, req).1),
{
    let s2 = remove_ids(s, spec_delete_set(s, closed, req));
    let s3 = spec_after_removal(s, closed, req);
    let c2 = spec_delete_points(s, closed, req).1;
    lemma_spec_first_on(s2);
    let k = spec_first_on(s2)->Some_0;
    if closed {
        let sn = normalize_closed(s2);
        if s2.last().spec_is_on_curve() {
            assert(sn == s2);
        } else {
            assert(sn == rotate_left(s2, k + 1));
            assert(sn.last() == s2[k]);
        }
        assert(sn.last().spec_is_on_curve());
        assert(s3 == repair_from(sn, 0));
        lemma_repair_from_valid(sn, 0);
        lemma_repair_from_keeps_on(sn, 0, sn.len() - 1);
        assert(s3.len() > 0 && s3.last().spec_is_on_curve() && valid_tail(s3, 0));
        if !c2 {
            // too few points to stay closed: the repair output is all
            // on-curve, so the open boundary holds too
            lemma_repair_from_off_len(sn, 0);
            assert forall|j: int| 0 <= j < s3.len() implies (
            #[trigger] s3[j]).spec_is_on_curve() by {
                if s3[j].spec_is_off_curve() {
                    assert(s3.len() >= 3);
                }
            }
            assert(s3[0].spec_is_on_curve());
            assert(valid_tail(s3, 1));
            assert(contour_ok(s3, false));
        } else {
            assert(contour_ok(s3, true));
        }
    } else {
        assert(s3 == repair_open(s2));
        assert(s3 == seq![s2[k]] + repair_from(s2, k + 1));
        lemma_repair_from_valid(s2, k + 1);
        let rest = repair_from(s2, k + 1);
        assert(s3[0] == s2[k] && s3[0].spec_is_on_curve());
        assert forall|d: int| 0 <= d < s3.len() - 1 implies #[trigger] s3[1 + d] == rest[d] by {}
        crate::segment::lemma_valid_tail_congruent(s3, rest, 1, 0);
        assert(valid_tail(s3, 1));
        if rest.len() > 0 {
            assert(s3.last() == rest.last());
        } else {
            assert(s3.last() == s2[k]);
        }
        assert(!c2);
        assert(contour_ok(s3, false));
    }
    let pts = spec_delete_points(s, closed, req).0;
    assert(pts.len() == s3.len());
    assert forall|j: int| 0 <= j < s3.len() implies (#[trigger] pts[j]).spec_is_on_curve() == s3[
        j].spec_is_on_curve() by {
        assert(pts[j] == fixup_at(s3, c2, j));
    }
    lemma_wf_same_onness(s3, pts, c2);
}

/// Re-entering the tangent-handle maintenance with nothing moved is
/// idempotent: a partner that was just re-angled already lies on the
/// mirrored ray, so adjusting it again leaves it in place.
pub proof fn lemma_adjusted_idempotent(
    s: Seq<PathPoint>,
    bcp1: EntityId,
    on_curve: EntityId,
    bcp2: EntityId,
)
    requires
        bcp1 != bcp2,
        on_curve != bcp2,
    ensures
        spec_adjusted(spec_adjusted(s, bcp1, on_curve, bcp2), bcp1, on_curve, bcp2)
            == spec_adjusted(s, bcp1, on_curve, bcp2),
{
    let r = spec_adjusted(s, bcp1, on_curve, bcp2);
    lemma_spec_find(s, bcp1);
    lemma_spec_find(s, on_curve);
    lemma_spec_find(s, bcp2);
    match (spec_find(s, bcp1), spec_find(s, on_curve), spec_find(s, bcp2)) {
        (Some(i1), Some(i2), Some(i3)) => {
            let p1 = s[i1].point;
            let p2 = s[i2].point;
            let p3 = s[i3].point;
            let cl = crate::design_space::COORD_LIMIT as int;
            if p1.bounded(cl) && p2.bounded(cl) && p3.bounded(cl) {
                match crate::design_space::spec_tangent_mirror(p1, p2, p3) {
                    Some(q) => {
                        assert(r == s.update(i3, PathPoint { point: q, ..s[i3] }));
                        assert forall|j: int| 0 <= j < s.len() implies (#[trigger] r[j]).id == s[
                        j].id by {
                            if j != i3 {
                                assert(r[j] == s[j]);
                            }
                        }
                        lemma_spec_find_same_ids(s, r, bcp1);
                        lemma_spec_find_same_ids(s, r, on_curve);
                        lemma_spec_find_same_ids(s, r, bcp2);
                        assert(s[i1].id == bcp1 && s[i3].id == bcp2 && s[i2].id == on_curve);
                        assert(i1 != i3 && i2 != i3);
                        assert(r[i1].point == p1 && r[i2].point == p2 && r[i3].point == q);
                        if q.bounded(cl) {
                            crate::design_space::lemma_tangent_mirror_idempotent(p1, p2, p3);
                            assert(crate::design_space::spec_tangent_mirror(p1, p2, q) == Some(
                                q,
                            ));
                            assert(spec_adjusted(r, bcp1, on_curve, bcp2) == r.update(
                                i3,
                                PathPoint { point: q, ..r[i3] },
                            ));
                            assert(r.update(i3, PathPoint { point: q, ..r[i3] }) =~= r);
                        } else {
                            assert(spec_adjusted(r, bcp1, on_curve, bcp2) == r);
                        }
                    },
                    None => {
                        assert(r == s);
                    },
                }
            } else {
                assert(r == s);
            }
        },
        _ => {
            assert(r == s);
        },
    }
}

/// A copy of the points of a slice, in order.
fn copy_points(s: &[PathPoint]) -> (r: Vec<PathPoint>)
    ensures
        r@ == s@,
{
    let mut v: Vec<PathPoint> = Vec::new();
    let mut i: usize = 0;
    while i < s.len()
        invariant
            i <= s@.len(),
            v@ == s@.subrange(0, i as int),
        decreases s@.len() - i,
    {
        v.push(s[i]);
        proof {
            assert(v@ =~= s@.subrange(0, i + 1));
        }
        i += 1;
    }
    proof {
        assert(s@.subrange(0, s@.len() as int) =~= s@);
    }
    v
}

/// A copy of the sequence with `remove` elements replaced by `ins` at
/// position `at`.
fn splice_points(s: &[PathPoint], at: usize, remove: usize, ins: &Vec<PathPoint>) -> (r: Vec<
    PathPoint,
>)
    requires
        at + remove <= s@.len(),
    ensures
        r@ == splice_spec(s@, at as int, remove as int, ins@),
{
    let n = s.len();
    let mut out: Vec<PathPoint> = Vec::new();
    let mut i: usize = 0;
    while i < at
        invariant
            at + remove <= s@.len(),
            n == s@.len(),
            i <= at,
            out@ == s@.subrange(0, i as int),
        decreases at - i,
    {
        out.push(s[i]);
        proof {
            assert(out@ =~= s@.subrange(0, i + 1));
        }
        i += 1;
    }
    let mut j: usize = 0;
    while j < ins.len()
        invariant
            at + remove <= s@.len(),
            j <= ins@.len(),
            out@ == s@.subrange(0, at as int) + ins@.subrange(0, j as int),
        decreases ins@.len() - j,
    {
        out.push(ins[j]);
        proof {
            assert(out@ =~= s@.subrange(0, at as int) + ins@.subrange(0, j + 1));
        }
        j += 1;
    }
    proof {
        assert(ins@.subrange(0, ins@.len() as int) =~= ins@);
    }
    let mut k: usize = at + remove;
    while k < s.len()
        invariant
            at + remove <= s@.len(),
            at + remove <= k <= s@.len(),
            out@ == s@.subrange(0, at as int) + ins@ + s@.subrange(at + remove, k as int),
        decreases s@.len() - k,
    {
        out.push(s[k]);
        proof {
            assert(out@ =~= s@.subrange(0, at as int) + ins@ + s@.subrange(
                at + remove,
                k + 1,
            ));
        }
        k += 1;
    }
    out
}

/// The sequence left-rotated by `k`: a copy with element `k` first.
fn rotate_left_vec(v: &[PathPoint], k: usize) -> (r: Vec<PathPoint>)
    requires
        k <= v@.len(),
    ensures
        r@ == rotate_left(v@, k as int),
{
    let mut out: Vec<PathPoint> = Vec::new();
    let mut i: usize = k;
    while i < v.len()
        invariant
            k <= v@.len(),
            k <= i <= v@.len(),
            out@ == v@.subrange(k as int, i as int),
        decreases v@.len() - i,
    {
        out.push(v[i]);
        proof {
            assert(out@ =~= v@.subrange(k as int, i + 1));
        }
        i += 1;
    }
    let mut j: usize = 0;
    while j < k
        invariant
            k <= v@.len(),
            j <= k,
            out@ == v@.subrange(k as int, v@.len() as int) + v@.subrange(0, j as int),
        decreases k - j,
    {
        out.push(v[j]);
        proof {
            assert(out@ =~= v@.subrange(k as int, v@.len() as int) + v@.subrange(0, j + 1));
        }
        j += 1;
    }
    out
}

/// Closing a well-formed open contour leaves a well-formed closed one: the
/// rotation moves the on-curve first point to the end.
proof fn lemma_close_wf(s: Seq<PathPoint>)
    requires
        s.len() > 0,
        s[0].spec_is_on_curve(),
        valid_tail(s, 1),
    ensures
        contour_ok(rotate_left(s, 1), true),
{
    let r = rotate_left(s, 1);
    let t = s.subrange(1, s.len() as int);
    crate::segment::lemma_valid_tail_congruent(s, t, 1, 0);
    crate::segment::lemma_valid_tail_push_on(t, s[0], 0);
    assert(t.push(s[0]) =~= r);
    assert(r.len() == s.len());
    assert(r.last() == s[0]);
}

} // verus!
