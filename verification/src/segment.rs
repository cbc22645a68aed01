//! The segment view of a contour: lines and cubic Bezier curves derived on
//! demand from the flat point sequence.

use vstd::prelude::*;
use crate::point::{EntityId, PathPoint};

verus! {

/// A segment between two consecutive on-curve points: a straight line, or a
/// cubic Bezier with its two control points. Each element is a copy of a
/// stored point.
#[derive(Clone, Copy, Debug, PartialEq, Eq, Structural)]
pub enum Segment {
    Line(PathPoint, PathPoint),
    Cubic(PathPoint, PathPoint, PathPoint, PathPoint),
}

impl Segment {
    pub open spec fn spec_is_line(self) -> bool {
        self is Line
    }

    pub fn is_line(&self) -> (r: bool)
        ensures
            r == self.spec_is_line(),
    {
        matches!(self, Segment::Line(..))
    }

    /// The points of the segment in order, as a sequence.
    pub open spec fn points_seq(self) -> Seq<PathPoint> {
        match self {
            Segment::Line(p1, p2) => seq![p1, p2],
            Segment::Cubic(p1, p2, p3, p4) => seq![p1, p2, p3, p4],
        }
    }

    /// Roles are as the segment kind demands: endpoints on-curve, cubic
    /// control points off-curve.
    pub open spec fn wf(self) -> bool {
        match self {
            Segment::Line(p1, p2) => p1.spec_is_on_curve() && p2.spec_is_on_curve(),
            Segment::Cubic(p1, p2, p3, p4) => p1.spec_is_on_curve() && p2.spec_is_off_curve()
                && p3.spec_is_off_curve() && p4.spec_is_on_curve(),
        }
    }

    pub open spec fn spec_start(self) -> PathPoint {
        self.points_seq()[0]
    }

    pub open spec fn spec_end(self) -> PathPoint {
        self.points_seq().last()
    }

    pub fn start(&self) -> (r: PathPoint)
        ensures
            r == self.spec_start(),
    {
        match self {
            Segment::Line(p1, _) => *p1,
            Segment::Cubic(p1, ..) => *p1,
        }
    }

    pub fn end(&self) -> (r: PathPoint)
        ensures
            r == self.spec_end(),
    {
        match self {
            Segment::Line(_, p2) => *p2,
            Segment::Cubic(.., p2) => *p2,
        }
    }

    pub fn start_id(&self) -> (r: EntityId)
        ensures
            r == self.spec_start().id,
    {
        self.start().id
    }

    pub fn end_id(&self) -> (r: EntityId)
        ensures
            r == self.spec_end().id,
    {
        self.end().id
    }

    /// The points of the segment in order.
    pub fn points(&self) -> (r: Vec<PathPoint>)
        ensures
            r@ == self.points_seq(),
    {
        let mut v: Vec<PathPoint> = Vec::new();
        match self {
            Segment::Line(p1, p2) => {
                v.push(*p1);
                v.push(*p2);
            },
            Segment::Cubic(p1, p2, p3, p4) => {
                v.push(*p1);
                v.push(*p2);
                v.push(*p3);
                v.push(*p4);
            },
        }
        proof {
            assert(v@ =~= self.points_seq());
        }
        v
    }

    /// The identities of the segment's points in order.
    pub fn ids(&self) -> (r: Vec<EntityId>)
        ensures
            r@.len() == self.points_seq().len(),
            forall|i: int| 0 <= i < r@.len() ==> r@[i] == self.points_seq()[i].id,
    {
        let mut v: Vec<EntityId> = Vec::new();
        match self {
            Segment::Line(p1, p2) => {
                v.push(p1.id);
                v.push(p2.id);
            },
            Segment::Cubic(p1, p2, p3, p4) => {
                v.push(p1.id);
                v.push(p2.id);
                v.push(p3.id);
                v.push(p4.id);
            },
        }
        v
    }

    /// An iterator over the points of this segment.
    pub fn point_iter(&self) -> (r: SegmentPointIter)
        ensures
            r == (SegmentPointIter { seg: *self, idx: 0 }),
    {
        SegmentPointIter { seg: *self, idx: 0 }
    }
}

/// Whether the stored points from position `i` on continue a valid
/// alternation: each step is either an on-curve point (a line) or a complete
/// group of two off-curve control points closed by an on-curve point (a
/// cubic). In particular every off-curve run has length exactly two and ends
/// before the sequence does.
pub open spec fn valid_tail(s: Seq<PathPoint>, i: int) -> bool
    decreases s.len() - i,
{
    if i >= s.len() {
        true
    } else if s[i].spec_is_on_curve() {
        valid_tail(s, i + 1)
    } else {
        &&& i + 2 < s.len()
        &&& s[i + 1].spec_is_off_curve()
        &&& s[i + 2].spec_is_on_curve()
        &&& valid_tail(s, i + 3)
    }
}

/// Appending an on-curve point to a valid tail keeps it valid.
pub proof fn lemma_valid_tail_push_on(s: Seq<PathPoint>, p: PathPoint, i: int)
    requires
        0 <= i,
        valid_tail(s, i),
        p.spec_is_on_curve(),
    ensures
        valid_tail(s.push(p), i),
    decreases s.len() + 1 - i,
{
    if i < s.len() {
        if s[i].spec_is_on_curve() {
            lemma_valid_tail_push_on(s, p, i + 1);
        } else {
            lemma_valid_tail_push_on(s, p, i + 3);
        }
    } else if i == s.len() {
        assert(s.push(p)[i].spec_is_on_curve());
        assert(valid_tail(s.push(p), i + 1));
    } else {
        assert(i >= s.push(p).len());
    }
}

/// A sequence with a valid tail that reaches its end finishes with an
/// on-curve point: an off-curve run is always closed before the sequence
/// ends.
pub proof fn lemma_valid_tail_last_on(s: Seq<PathPoint>, t: int)
    requires
        0 <= t < s.len(),
        valid_tail(s, t),
    ensures
        s.last().spec_is_on_curve(),
    decreases s.len() - t,
{
    if s[t].spec_is_on_curve() {
        if t < s.len() - 1 {
            lemma_valid_tail_last_on(s, t + 1);
        }
    } else {
        if t + 3 < s.len() {
            lemma_valid_tail_last_on(s, t + 3);
        } else {
            assert(s[t + 2] == s.last());
        }
    }
}

/// Every maximal run of off-curve points in a valid tail consists of
/// exactly two control points closed by an on-curve point: never one, and
/// never three or more.
pub proof fn lemma_valid_tail_off_runs(s: Seq<PathPoint>, t: int)
    requires
        0 <= t,
        valid_tail(s, t),
    ensures
        forall|i: int|
            t <= i < s.len() && (#[trigger] s[i]).spec_is_off_curve() && (i == t || s[i
                - 1].spec_is_on_curve()) ==> i + 2 < s.len() && s[i + 1].spec_is_off_curve() && s[i
                + 2].spec_is_on_curve(),
    decreases s.len() + 1 - t,
{
    if t < s.len() {
        if s[t].spec_is_on_curve() {
            lemma_valid_tail_off_runs(s, t + 1);
        } else {
            lemma_valid_tail_off_runs(s, t + 3);
            assert forall|i: int|
                t <= i < s.len() && (#[trigger] s[i]).spec_is_off_curve() && (i == t || s[i
                    - 1].spec_is_on_curve()) implies i + 2 < s.len() && s[i
                + 1].spec_is_off_curve() && s[i + 2].spec_is_on_curve() by {
                if i == t {
                } else if i == t + 1 {
                    assert(s[i - 1] == s[t]);
                } else if i == t + 2 {
                    assert(!s[t + 2].spec_is_off_curve());
                } else {
                }
            }
        }
    }
}

/// The run property alone: every off-curve point that starts a run (its
/// predecessor is on-curve, or it stands at the start position) is the
/// first of a complete pair closed by an on-curve point.
pub open spec fn off_runs_ok(s: Seq<PathPoint>, t: int) -> bool {
    forall|i: int|
        t <= i < s.len() && (#[trigger] s[i]).spec_is_off_curve() && (i == t || s[i
            - 1].spec_is_on_curve()) ==> i + 2 < s.len() && s[i + 1].spec_is_off_curve() && s[i
            + 2].spec_is_on_curve()
}

/// The run property is all there is to tail validity.
pub proof fn lemma_off_runs_to_valid(s: Seq<PathPoint>, t: int)
    requires
        0 <= t,
        off_runs_ok(s, t),
    ensures
        valid_tail(s, t),
    decreases s.len() + 1 - t,
{
    if t < s.len() {
        if s[t].spec_is_on_curve() {
            assert forall|i: int|
                t + 1 <= i < s.len() && (#[trigger] s[i]).spec_is_off_curve() && (i == t + 1 || s[i
                    - 1].spec_is_on_curve()) implies i + 2 < s.len() && s[i
                + 1].spec_is_off_curve() && s[i + 2].spec_is_on_curve() by {
                if i == t + 1 {
                    assert(s[i - 1] == s[t]);
                }
            }
            lemma_off_runs_to_valid(s, t + 1);
        } else {
            assert(t + 2 < s.len() && s[t + 1].spec_is_off_curve() && s[t
                + 2].spec_is_on_curve());
            assert forall|i: int|
                t + 3 <= i < s.len() && (#[trigger] s[i]).spec_is_off_curve() && (i == t + 3 || s[i
                    - 1].spec_is_on_curve()) implies i + 2 < s.len() && s[i
                + 1].spec_is_off_curve() && s[i + 2].spec_is_on_curve() by {
                if i == t + 3 {
                    assert(s[i - 1] == s[t + 2]);
                }
            }
            lemma_off_runs_to_valid(s, t + 3);
        }
    }
}

/// In a valid tail, every off-curve point is either the first or the
/// second of its pair: its pair partner sits right beside it and an
/// on-curve point closes the pair.
pub proof fn lemma_valid_tail_off_pairs(s: Seq<PathPoint>, t: int)
    requires
        0 <= t,
        valid_tail(s, t),
    ensures
        forall|i: int|
            t <= i < s.len() && (#[trigger] s[i]).spec_is_off_curve() ==> ((i + 2 < s.len() && s[i
                + 1].spec_is_off_curve() && s[i + 2].spec_is_on_curve() && (i == t || s[i
                - 1].spec_is_on_curve())) || (t <= i - 1 && s[i - 1].spec_is_off_curve() && i + 1
                < s.len() && s[i + 1].spec_is_on_curve() && (i - 1 == t || s[i
                - 2].spec_is_on_curve()))),
    decreases s.len() + 1 - t,
{
    if t < s.len() {
        if s[t].spec_is_on_curve() {
            lemma_valid_tail_off_pairs(s, t + 1);
            assert forall|i: int|
                t <= i < s.len() && (#[trigger] s[i]).spec_is_off_curve() implies ((i + 2 < s.len()
                    && s[i + 1].spec_is_off_curve() && s[i + 2].spec_is_on_curve() && (i == t || s[i
                    - 1].spec_is_on_curve())) || (t <= i - 1 && s[i - 1].spec_is_off_curve() && i
                    + 1 < s.len() && s[i + 1].spec_is_on_curve() && (i - 1 == t || s[i
                    - 2].spec_is_on_curve()))) by {
                if i == t + 1 {
                    assert(s[i - 1] == s[t]);
                } else if i == t + 2 {
                    assert(s[i - 2] == s[t]);
                }
            }
        } else {
            lemma_valid_tail_off_pairs(s, t + 3);
            assert forall|i: int|
                t <= i < s.len() && (#[trigger] s[i]).spec_is_off_curve() implies ((i + 2 < s.len()
                    && s[i + 1].spec_is_off_curve() && s[i + 2].spec_is_on_curve() && (i == t || s[i
                    - 1].spec_is_on_curve())) || (t <= i - 1 && s[i - 1].spec_is_off_curve() && i
                    + 1 < s.len() && s[i + 1].spec_is_on_curve() && (i - 1 == t || s[i
                    - 2].spec_is_on_curve()))) by {
                if i == t {
                } else if i == t + 1 {
                } else if i == t + 3 {
                    assert(s[i - 1] == s[t + 2]);
                } else if i == t + 4 {
                    assert(s[i - 2] == s[t + 2]);
                }
            }
        }
    }
}

/// Tail validity reads only whether each point is on-curve, so it survives
/// any change that keeps that much.
pub proof fn lemma_valid_tail_same_onness(s: Seq<PathPoint>, s2: Seq<PathPoint>, i: int)
    requires
        0 <= i,
        s.len() == s2.len(),
        forall|j: int|
            0 <= j < s.len() ==> (#[trigger] s2[j]).spec_is_on_curve() == s[j].spec_is_on_curve(),
        valid_tail(s, i),
    ensures
        valid_tail(s2, i),
    decreases s.len() + 1 - i,
{
    if i < s.len() {
        assert(s2[i].spec_is_on_curve() == s[i].spec_is_on_curve());
        if s[i].spec_is_on_curve() {
            lemma_valid_tail_same_onness(s, s2, i + 1);
        } else {
            assert(s2[i + 1].spec_is_on_curve() == s[i + 1].spec_is_on_curve());
            assert(s2[i + 2].spec_is_on_curve() == s[i + 2].spec_is_on_curve());
            lemma_valid_tail_same_onness(s, s2, i + 3);
        }
    }
}

/// Tail validity reads only curve roles, so it survives any change that
/// moves points without changing their roles.
pub proof fn lemma_valid_tail_same_roles(s: Seq<PathPoint>, s2: Seq<PathPoint>, i: int)
    requires
        0 <= i,
        s.len() == s2.len(),
        forall|j: int| 0 <= j < s.len() ==> (#[trigger] s2[j]).typ == s[j].typ,
        valid_tail(s, i),
    ensures
        valid_tail(s2, i),
    decreases s.len() + 1 - i,
{
    assert forall|j: int| 0 <= j < s.len() implies (#[trigger] s2[j]).spec_is_on_curve() == s[
        j].spec_is_on_curve() by {
        assert(s2[j].typ == s[j].typ);
    }
    lemma_valid_tail_same_onness(s, s2, i);
}

/// Tail validity depends only on the points from the start position on:
/// two sequences that agree there agree on validity.
pub proof fn lemma_valid_tail_congruent(s: Seq<PathPoint>, t: Seq<PathPoint>, i: int, j: int)
    requires
        0 <= i <= s.len(),
        0 <= j <= t.len(),
        s.len() - i == t.len() - j,
        forall|d: int| 0 <= d < s.len() - i ==> #[trigger] s[i + d] == t[j + d],
    ensures
        valid_tail(s, i) == valid_tail(t, j),
    decreases s.len() - i,
{
    if i < s.len() {
        assert(s[i] == t[j]) by {
            assert(s[i + 0] == t[j + 0]);
        }
        if s[i].spec_is_on_curve() {
            assert forall|d: int| 0 <= d < s.len() - (i + 1) implies #[trigger] s[(i + 1) + d]
                == t[(j + 1) + d] by {
                assert(s[i + (d + 1)] == t[j + (d + 1)]);
            }
            lemma_valid_tail_congruent(s, t, i + 1, j + 1);
        } else {
            if i + 2 < s.len() {
                assert(s[i + 1] == t[j + 1]);
                assert(s[i + 2] == t[j + 2]);
                assert forall|d: int| 0 <= d < s.len() - (i + 3) implies #[trigger] s[(i + 3) + d]
                    == t[(j + 3) + d] by {
                    assert(s[i + (d + 3)] == t[j + (d + 3)]);
                }
                lemma_valid_tail_congruent(s, t, i + 3, j + 3);
            }
        }
    }
}

/// The segments read off the stored points from position `i` on, with
/// `prev` as the start of the first segment.
pub open spec fn segments_from(s: Seq<PathPoint>, prev: PathPoint, i: int) -> Seq<Segment>
    decreases s.len() - i,
{
    if i >= s.len() {
        Seq::empty()
    } else if s[i].spec_is_on_curve() {
        seq![Segment::Line(prev, s[i])] + segments_from(s, s[i], i + 1)
    } else if i + 2 < s.len() {
        seq![Segment::Cubic(prev, s[i], s[i + 1], s[i + 2])] + segments_from(s, s[i + 2], i + 3)
    } else {
        Seq::empty()
    }
}

/// Whether a sequence of segments forms a well-formed chain: every
/// segment's roles fit its kind, and every segment starts with the point
/// its predecessor ends with.
pub open spec fn seg_chain_wf(segs: Seq<Segment>) -> bool {
    &&& forall|i: int| 0 <= i < segs.len() ==> (#[trigger] segs[i]).wf()
    &&& forall|i: int|
        0 < i < segs.len() ==> (#[trigger] segs[i]).spec_start() == segs[i - 1].spec_end()
}

/// The points of a segment chain past the first segment's start: every
/// segment contributes its points except the start it shares with its
/// predecessor.
pub open spec fn tails_of_segments(segs: Seq<Segment>) -> Seq<PathPoint>
    decreases segs.len(),
{
    if segs.len() == 0 {
        Seq::empty()
    } else {
        segs[0].points_seq().drop_first() + tails_of_segments(segs.drop_first())
    }
}

/// The flat point sequence of a segment chain: the first segment's start,
/// then every segment's remaining points.
pub open spec fn points_of_segments(segs: Seq<Segment>) -> Seq<PathPoint> {
    if segs.len() == 0 {
        Seq::empty()
    } else {
        seq![segs[0].spec_start()] + tails_of_segments(segs)
    }
}

/// The segment walk reads only the points from its position on: two
/// sequences that agree there walk alike.
pub proof fn lemma_segments_from_congruent(
    s: Seq<PathPoint>,
    t: Seq<PathPoint>,
    i: int,
    j: int,
    prev: PathPoint,
)
    requires
        0 <= i <= s.len(),
        0 <= j <= t.len(),
        s.len() - i == t.len() - j,
        forall|d: int| 0 <= d < s.len() - i ==> #[trigger] s[i + d] == t[j + d],
    ensures
        segments_from(s, prev, i) == segments_from(t, prev, j),
    decreases s.len() - i,
{
    if i < s.len() {
        assert(s[i] == t[j]) by {
            assert(s[i + 0] == t[j + 0]);
        }
        if s[i].spec_is_on_curve() {
            assert forall|d: int| 0 <= d < s.len() - (i + 1) implies #[trigger] s[(i + 1) + d]
                == t[(j + 1) + d] by {
                assert(s[i + (d + 1)] == t[j + (d + 1)]);
            }
            lemma_segments_from_congruent(s, t, i + 1, j + 1, s[i]);
        } else if i + 2 < s.len() {
            assert(s[i + 1] == t[j + 1]);
            assert(s[i + 2] == t[j + 2]);
            assert forall|d: int| 0 <= d < s.len() - (i + 3) implies #[trigger] s[(i + 3) + d]
                == t[(j + 3) + d] by {
                assert(s[i + (d + 3)] == t[j + (d + 3)]);
            }
            lemma_segments_from_congruent(s, t, i + 3, j + 3, s[i + 2]);
        }
    }
}

/// Round trip: flattening a well-formed segment chain to its point
/// sequence and walking that sequence again yields the same segments, with
/// the same kinds and the same point identities.
#[verifier::rlimit(100)]
#[verifier::spinoff_prover]
pub proof fn lemma_segments_round_trip(segs: Seq<Segment>)
    requires
        seg_chain_wf(segs),
        segs.len() > 0,
    ensures
        segments_from(points_of_segments(segs), segs[0].spec_start(), 1) == segs,
    decreases segs.len(),
{
    let s = points_of_segments(segs);
    let start0 = segs[0].spec_start();
    let tail0 = segs[0].points_seq().drop_first();
    let rest = segs.drop_first();
    assert(segs[0].wf());
    assert(tails_of_segments(segs) == tail0 + tails_of_segments(rest));
    assert(s =~= seq![start0] + tail0 + tails_of_segments(rest));
    if rest.len() == 0 {
        match segs[0] {
            Segment::Line(a, b) => {
                assert(s =~= seq![a, b]);
                assert(s[1] == b && b.spec_is_on_curve());
                assert(segments_from(s, a, 1) =~= seq![Segment::Line(a, b)]
                    + segments_from(s, b, 2));
                assert(segments_from(s, b, 2) =~= Seq::<Segment>::empty());
                assert(segments_from(s, start0, 1) =~= segs);
            },
            Segment::Cubic(a, b, c, d) => {
                assert(s =~= seq![a, b, c, d]);
                assert(!s[1].spec_is_on_curve());
                assert(segments_from(s, a, 1) =~= seq![Segment::Cubic(a, b, c, d)]
                    + segments_from(s, d, 4));
                assert(segments_from(s, d, 4) =~= Seq::<Segment>::empty());
                assert(segments_from(s, start0, 1) =~= segs);
            },
        }
    } else {
        assert forall|i: int| 0 <= i < rest.len() implies (#[trigger] rest[i]).wf() by {
            assert(rest[i] == segs[i + 1]);
        }
        assert forall|i: int| 0 < i < rest.len() implies (#[trigger] rest[i]).spec_start()
            == rest[i - 1].spec_end() by {
            assert(rest[i] == segs[i + 1]);
            assert(rest[i - 1] == segs[i]);
        }
        lemma_segments_round_trip(rest);
        let s_rest = points_of_segments(rest);
        let end0 = segs[0].spec_end();
        assert(rest[0] == segs[1]);
        assert(rest[0].spec_start() == end0);
        assert(s_rest =~= seq![end0] + tails_of_segments(rest));
        let k = tail0.len() as int;
        // the flat sequence past the first segment is the rest's own flat
        // sequence
        assert forall|d: int| 0 <= d < s.len() - k implies #[trigger] s[k + d] == s_rest[d] by {
            if d == 0 {
                assert(tail0.last() == end0) by {
                    match segs[0] {
                        Segment::Line(a, b) => {
                            assert(tail0 =~= seq![b]);
                        },
                        Segment::Cubic(a, b, c, d2) => {
                            assert(tail0 =~= seq![b, c, d2]);
                        },
                    }
                }
                assert(s[k] == tail0[k - 1]);
                assert(s_rest[0] == end0);
            } else {
                assert(s[k + d] == tails_of_segments(rest)[d - 1]);
                assert(s_rest[d] == tails_of_segments(rest)[d - 1]);
            }
        }
        lemma_segments_from_congruent(s, s_rest, k + 1, 1, end0);
        match segs[0] {
            Segment::Line(a, b) => {
                assert(s[1] == b && b.spec_is_on_curve());
                assert(segments_from(s, start0, 1) == seq![Segment::Line(a, b)] + segments_from(
                    s,
                    b,
                    2,
                ));
                assert(segments_from(s, b, 2) == segments_from(s_rest, end0, 1));
                assert(segments_from(s, start0, 1) =~= segs);
            },
            Segment::Cubic(a, b, c, d) => {
                assert(s[1] == b && !b.spec_is_on_curve());
                assert(s[2] == c && s[3] == d);
                assert(1 + 2 < s.len());
                assert(segments_from(s, start0, 1) == seq![Segment::Cubic(a, b, c, d)]
                    + segments_from(s, d, 4));
                assert(segments_from(s, d, 4) == segments_from(s_rest, end0, 1));
                assert(segments_from(s, start0, 1) =~= segs);
            },
        }
    }
}

/// An iterator over the segments of a contour.
///
/// It walks an immutable snapshot of the point sequence taken when the
/// iterator was made, so iteration and later mutation of the contour never
/// interfere.
pub struct Segments {
    pub points: Vec<PathPoint>,
    pub prev_pt: PathPoint,
    pub idx: usize,
}

impl Segments {
    /// The walk ahead of the iterator is a valid alternation.
    pub open spec fn wf(self) -> bool {
        valid_tail(self.points@, self.idx as int)
    }

    /// The segments the iterator has yet to produce.
    pub open spec fn remaining(self) -> Seq<Segment> {
        segments_from(self.points@, self.prev_pt, self.idx as int)
    }

    /// Produce the next segment: an on-curve point at the cursor yields a
    /// line, an off-curve point yields a cubic built from the next three
    /// points.
    pub fn next(&mut self) -> (r: Option<Segment>)
        requires
            old(self).wf(),
        ensures
            final(self).wf(),
            match r {
                None => old(self).remaining().len() == 0 && *final(self) == *old(self),
                Some(seg) => {
                    &&& old(self).remaining().len() > 0
                    &&& seg == old(self).remaining()[0]
                    &&& final(self).remaining() == old(self).remaining().drop_first()
                    &&& seg.spec_end().spec_is_on_curve()
                },
            },
    {
        if self.idx >= self.points.len() {
            return None;
        }
        let seg_start = self.prev_pt;
        let ghost pre = *self;
        if !self.points[self.idx].is_on_curve() {
            let p1 = self.points[self.idx];
            let p2 = self.points[self.idx + 1];
            self.prev_pt = self.points[self.idx + 2];
            self.idx = self.idx + 3;
            let seg = Segment::Cubic(seg_start, p1, p2, self.prev_pt);
            proof {
                assert(pre.remaining() == seq![seg] + self.remaining());
                assert(pre.remaining().drop_first() =~= self.remaining());
            }
            Some(seg)
        } else {
            self.prev_pt = self.points[self.idx];
            self.idx = self.idx + 1;
            let seg = Segment::Line(seg_start, self.prev_pt);
            proof {
                assert(pre.remaining() == seq![seg] + self.remaining());
                assert(pre.remaining().drop_first() =~= self.remaining());
            }
            Some(seg)
        }
    }

    /// All remaining segments, in order.
    pub fn collect(&mut self) -> (r: Vec<Segment>)
        requires
            old(self).wf(),
        ensures
            r@ == old(self).remaining(),
            final(self).wf(),
            final(self).remaining().len() == 0,
    {
        let mut v: Vec<Segment> = Vec::new();
        loop
            invariant
                self.wf(),
                old(self).remaining() == v@ + self.remaining(),
            decreases self.remaining().len(),
        {
            let ghost before = self.remaining();
            match self.next() {
                Some(seg) => {
                    v.push(seg);
                    proof {
                        assert(v@ + self.remaining() =~= v@.drop_last() + (seq![seg]
                            + self.remaining()));
                        assert(seq![seg] + before.drop_first() =~= before);
                    }
                },
                None => {
                    proof {
                        assert(old(self).remaining() =~= v@);
                    }
                    return v;
                },
            }
        }
    }
}

/// An iterator over the points of a single segment.
pub struct SegmentPointIter {
    pub seg: Segment,
    pub idx: usize,
}

impl SegmentPointIter {
    /// Produce the next point of the segment, in order.
    pub fn next(&mut self) -> (r: Option<PathPoint>)
        ensures
            final(self).seg == old(self).seg,
            if old(self).idx < old(self).seg.points_seq().len() {
                r == Some(old(self).seg.points_seq()[old(self).idx as int]) && final(self).idx
                    == old(self).idx + 1
            } else {
                r is None && *final(self) == *old(self)
            },
    {
        let n: usize = match self.seg {
            Segment::Line(..) => 2,
            Segment::Cubic(..) => 4,
        };
        if self.idx >= n {
            return None;
        }
        let i = self.idx;
        self.idx = i + 1;
        match (i, &self.seg) {
            (0, Segment::Line(p1, _)) => Some(*p1),
            (1, Segment::Line(_, p2)) => Some(*p2),
            (0, Segment::Cubic(p1, ..)) => Some(*p1),
            (1, Segment::Cubic(_, p2, ..)) => Some(*p2),
            (2, Segment::Cubic(_, _, p3, _)) => Some(*p3),
            (_, Segment::Cubic(_, _, _, p4)) => Some(*p4),
            _ => None,
        }
    }
}

} // verus!
