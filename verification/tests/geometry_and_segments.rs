use contour::design_space::{abs_diff, isqrt, tangent_mirror, DPoint, Transform};
use contour::point::{EntityId, PathPoint, PointType};
use contour::point_list::PathPoints;
use contour::segment::Segment;

fn pid() -> EntityId {
    EntityId::new(0, 5)
}

fn on(raw: u64, x: i64, y: i64) -> PathPoint {
    PathPoint::on_curve(EntityId::new(5, raw), DPoint::new(x, y))
}

fn off(raw: u64, x: i64, y: i64) -> PathPoint {
    PathPoint::off_curve(EntityId::new(5, raw), DPoint::new(x, y))
}

#[test]
fn isqrt_rounds_down() {
    assert_eq!(isqrt(0), 0);
    assert_eq!(isqrt(1), 1);
    assert_eq!(isqrt(3), 1);
    assert_eq!(isqrt(4), 2);
    assert_eq!(isqrt(99), 9);
    assert_eq!(isqrt(100), 10);
    assert_eq!(isqrt(u64::MAX as u128 * u64::MAX as u128), u64::MAX);
}

#[test]
fn abs_diff_never_overflows() {
    assert_eq!(abs_diff(5, -3), 8);
    assert_eq!(abs_diff(-3, 5), 8);
    assert_eq!(abs_diff(i64::MAX, i64::MIN), u64::MAX);
}

#[test]
fn axis_lock_snaps_to_dominant_axis() {
    let anchor = DPoint::new(10, 10);
    // horizontal movement dominates: y snaps
    assert_eq!(DPoint::new(20, 15).axis_locked_to(anchor), DPoint::new(20, 10));
    // vertical movement dominates (ties go vertical): x snaps
    assert_eq!(DPoint::new(15, 20).axis_locked_to(anchor), DPoint::new(10, 20));
    assert_eq!(DPoint::new(14, 14).axis_locked_to(anchor), DPoint::new(10, 14));
}

#[test]
fn tangent_mirror_keeps_partner_distance() {
    let center = DPoint::new(10, 10);
    let moved = DPoint::new(20, 10);
    let partner = DPoint::new(4, 2);
    // the partner was at distance 10; it lands opposite the moved handle
    assert_eq!(tangent_mirror(moved, center, partner), Some(DPoint::new(0, 10)));
    // no direction when the handle sits on the on-curve point
    assert_eq!(tangent_mirror(center, center, partner), None);
}

#[test]
fn transform_identity_fixes_everything() {
    let t = Transform::identity();
    let p = DPoint::new(123, -456);
    assert_eq!(t.apply(DPoint::new(7, 7), p), p);
}

#[test]
fn segment_accessors() {
    let a = on(1, 0, 0);
    let c1 = off(2, 0, 5);
    let c2 = off(3, 5, 5);
    let b = on(4, 5, 0);
    let line = Segment::Line(a, b);
    let cubic = Segment::Cubic(a, c1, c2, b);
    assert!(line.is_line());
    assert!(!cubic.is_line());
    assert_eq!(line.start(), a);
    assert_eq!(line.end(), b);
    assert_eq!(cubic.start_id(), a.id);
    assert_eq!(cubic.end_id(), b.id);
    assert_eq!(line.points(), vec![a, b]);
    assert_eq!(cubic.points(), vec![a, c1, c2, b]);
    assert_eq!(cubic.ids(), vec![a.id, c1.id, c2.id, b.id]);
}

#[test]
fn segment_point_iter_yields_points_in_order() {
    let a = on(1, 0, 0);
    let c1 = off(2, 0, 5);
    let c2 = off(3, 5, 5);
    let b = on(4, 5, 0);
    let mut it = Segment::Cubic(a, c1, c2, b).point_iter();
    assert_eq!(it.next(), Some(a));
    assert_eq!(it.next(), Some(c1));
    assert_eq!(it.next(), Some(c2));
    assert_eq!(it.next(), Some(b));
    assert_eq!(it.next(), None);
    let mut it = Segment::Line(a, b).point_iter();
    assert_eq!(it.next(), Some(a));
    assert_eq!(it.next(), Some(b));
    assert_eq!(it.next(), None);
}

#[test]
fn open_contour_segments_walk_from_first_point() {
    let pts = vec![on(1, 0, 0), off(2, 1, 1), off(3, 2, 2), on(4, 3, 3), on(5, 9, 9)];
    let c = PathPoints::from_raw_parts(pid(), pts, None, false);
    let mut segs = c.iter_segments();
    let s = c.as_slice();
    assert_eq!(segs.next(), Some(Segment::Cubic(s[0], s[1], s[2], s[3])));
    assert_eq!(segs.next(), Some(Segment::Line(s[3], s[4])));
    assert_eq!(segs.next(), None);
}

#[test]
fn closed_contour_segments_walk_from_canonical_start() {
    // stored `c1 c2 B`: one cubic from the start B through both controls
    let pts = vec![off(1, 0, 10), off(2, 10, 10), on(3, 5, 0)];
    let c = PathPoints::from_raw_parts(pid(), pts, None, true);
    let s = c.as_slice();
    let mut segs = c.iter_segments();
    let all = segs.collect();
    assert_eq!(all, vec![Segment::Cubic(s[2], s[0], s[1], s[2])]);
}

#[test]
fn closed_square_has_four_line_segments() {
    let pts = vec![on(1, 10, 0), on(2, 10, 10), on(3, 0, 10), on(4, 0, 0)];
    let c = PathPoints::from_raw_parts(pid(), pts, None, true);
    let mut segs = c.iter_segments();
    let all = segs.collect();
    assert_eq!(all.len(), 4);
    // the walk starts at the canonical start (last stored) and chains ends
    assert_eq!(all[0].start_id().raw, 4);
    for w in all.windows(2) {
        assert_eq!(w[0].end_id(), w[1].start_id());
    }
    assert_eq!(all[3].end_id().raw, 4);
    assert!(all.iter().all(|s| s.is_line()));
}

#[test]
fn segments_are_a_snapshot_independent_of_later_edits() {
    let pts = vec![on(1, 0, 0), on(2, 10, 0)];
    let mut c = PathPoints::from_raw_parts(pid(), pts, None, false);
    let a = c.as_slice()[0];
    let b = c.as_slice()[1];
    let mut segs = c.iter_segments();
    c.push_on_curve(DPoint::new(20, 0));
    // the iterator still walks the two-point snapshot
    assert_eq!(segs.next(), Some(Segment::Line(a, b)));
    assert_eq!(segs.next(), None);
}

#[test]
fn iter_points_yields_canonical_order() {
    let pts = vec![on(1, 0, 0), on(2, 10, 0), on(3, 5, 8)];
    let closed = PathPoints::from_raw_parts(pid(), pts.clone(), None, true);
    let raws: Vec<u64> = closed.iter_points().iter().map(|p| p.id.raw).collect();
    assert_eq!(raws, vec![3, 1, 2]);
    let open = PathPoints::from_raw_parts(pid(), pts, None, false);
    let raws: Vec<u64> = open.iter_points().iter().map(|p| p.id.raw).collect();
    assert_eq!(raws, vec![1, 2, 3]);
}

#[test]
fn split_then_walk_round_trips_kinds_and_endpoints() {
    // a split keeps the segment chain: same endpoints, one more segment
    let pts = vec![on(1, 0, 0), on(2, 10, 0)];
    let mut c = PathPoints::from_raw_parts(pid(), pts, None, false);
    let a = c.as_slice()[0];
    let b = c.as_slice()[1];
    let m = on(9, 5, 0);
    c.split_segment(Segment::Line(a, b), Segment::Line(a, m), Segment::Line(m, b));
    let mut segs = c.iter_segments();
    let all = segs.collect();
    assert_eq!(all, vec![Segment::Line(a, m), Segment::Line(m, b)]);
}

#[test]
fn point_roles_and_toggling() {
    let mut p = on(1, 0, 0);
    assert!(p.is_on_curve() && !p.is_off_curve() && !p.is_smooth());
    p.toggle_type();
    assert_eq!(p.typ, PointType::OnCurveSmooth);
    assert!(p.is_smooth() && p.is_on_curve());
    p.toggle_type();
    assert_eq!(p.typ, PointType::OnCurveCorner);
    let mut q = off(2, 1, 1);
    q.toggle_type();
    assert_eq!(q.typ, PointType::OffCurve);
    q.reparent(EntityId::new(0, 9));
    assert_eq!(q.id.parent, 9);
    assert_eq!(q.id.raw, 2);
    assert!(q.id.is_child_of(EntityId::new(3, 9)));
}

#[test]
fn tangent_mirror_is_idempotent() {
    // a short diagonal handle whose floored length underestimates badly:
    // the first mirror moves the partner, the second leaves it in place
    let center = DPoint::new(0, 0);
    let moved = DPoint::new(1, 1);
    let partner = DPoint::new(0, 5);
    let q = tangent_mirror(moved, center, partner).unwrap();
    assert_eq!(q, DPoint::new(-5, -5));
    assert_eq!(tangent_mirror(moved, center, q), Some(q));
}

#[test]
fn tangent_mirror_reduces_shared_direction_factors() {
    // direction (6,8) reduces to (3,4), so a short partner still gets a
    // point on the exact opposite ray instead of collapsing to the center
    let center = DPoint::new(0, 0);
    let moved = DPoint::new(6, 8);
    let partner = DPoint::new(0, -7);
    assert_eq!(tangent_mirror(moved, center, partner), Some(DPoint::new(-3, -4)));
}
