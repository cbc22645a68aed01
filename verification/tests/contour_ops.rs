use contour::design_space::DPoint;
use contour::point::{EntityId, PathPoint, PointType};
use contour::point_list::PathPoints;
use contour::segment::Segment;

fn pid() -> EntityId {
    EntityId::new(0, 77)
}

fn on(raw: u64, x: i64, y: i64) -> PathPoint {
    PathPoint::on_curve(EntityId::new(77, raw), DPoint::new(x, y))
}

fn smooth(raw: u64, x: i64, y: i64) -> PathPoint {
    PathPoint {
        typ: PointType::OnCurveSmooth,
        ..PathPoint::on_curve(EntityId::new(77, raw), DPoint::new(x, y))
    }
}

fn off(raw: u64, x: i64, y: i64) -> PathPoint {
    PathPoint::off_curve(EntityId::new(77, raw), DPoint::new(x, y))
}

#[test]
fn new_contour_single_open_point() {
    let c = PathPoints::new(pid(), DPoint::new(3, 4));
    assert_eq!(c.len(), 1);
    assert!(!c.closed());
    assert!(c.trailing().is_none());
    let start = *c.start_point();
    assert!(start.is_on_curve());
    assert_eq!(start.point, DPoint::new(3, 4));
    assert!(start.id.is_child_of(pid()));
}

#[test]
fn push_on_curve_appends_open_vertex() {
    // an open contour `on(0,0), off(1,1), off(2,2), on(3,3)` grows by one
    let pts = vec![on(1, 0, 0), off(2, 1, 1), off(3, 2, 2), on(4, 3, 3)];
    let mut c = PathPoints::from_raw_parts(pid(), pts, None, false);
    c.push_on_curve(DPoint::new(4, 4));
    assert_eq!(c.len(), 5);
    assert!(!c.closed());
    let last = c.as_slice().last().copied().unwrap();
    assert!(last.is_on_curve());
    assert_eq!(last.point, DPoint::new(4, 4));
}

#[test]
fn close_makes_former_first_point_the_canonical_start() {
    let mut c = PathPoints::new(pid(), DPoint::new(0, 0));
    let first_id = c.start_point().id;
    c.push_on_curve(DPoint::new(10, 0));
    c.push_on_curve(DPoint::new(10, 10));
    let start_id = c.close();
    assert!(c.closed());
    assert_eq!(start_id, first_id);
    // the canonical start of a closed contour is the last stored point
    assert_eq!(c.start_point().id, first_id);
    assert_eq!(c.as_slice().last().unwrap().id, first_id);
}

#[test]
fn from_raw_parts_rotates_closed_contour_to_on_curve_start() {
    // last stored point off-curve: rotate left past the first on-curve point
    let pts = vec![off(1, 5, 5), on(2, 0, 0), on(3, 9, 9), off(4, 7, 7)];
    let c = PathPoints::from_raw_parts(pid(), pts, None, true);
    assert!(c.closed());
    assert!(c.as_slice().last().unwrap().is_on_curve());
    assert_eq!(c.as_slice().last().unwrap().id.raw, 2);
    assert_eq!(c.len(), 4);
    // order is preserved cyclically
    let raws: Vec<u64> = c.as_slice().iter().map(|p| p.id.raw).collect();
    assert_eq!(raws, vec![3, 4, 1, 2]);
}

#[test]
fn delete_boundary_vertex_removes_orphaned_pair() {
    // deleting `A` of `[A on, B off, C off, D on]` removes B and C too
    let pts = vec![on(1, 0, 0), off(2, 1, 1), off(3, 2, 2), on(4, 3, 3)];
    let mut c = PathPoints::from_raw_parts(pid(), pts, None, false);
    c.delete_points(&[EntityId::new(77, 1)]);
    assert_eq!(c.len(), 1);
    assert_eq!(c.as_slice()[0].id.raw, 4);
}

#[test]
fn delete_from_closed_triangle_auto_opens() {
    let pts = vec![on(1, 0, 0), on(2, 10, 0), on(3, 5, 8)];
    let mut c = PathPoints::from_raw_parts(pid(), pts, None, true);
    assert!(c.closed());
    c.delete_points(&[EntityId::new(77, 2)]);
    assert_eq!(c.len(), 2);
    assert!(!c.closed());
}

#[test]
fn delete_both_handles_turns_smooth_into_corner() {
    let pts = vec![
        on(1, 0, 0),
        off(2, 1, 1),
        off(3, 2, 2),
        smooth(4, 3, 3),
        off(5, 4, 4),
        off(6, 5, 5),
        on(7, 6, 6),
    ];
    let mut c = PathPoints::from_raw_parts(pid(), pts, None, false);
    c.delete_points(&[EntityId::new(77, 2), EntityId::new(77, 5)]);
    assert_eq!(c.len(), 3);
    let mid = c.as_slice()[1];
    assert_eq!(mid.id.raw, 4);
    assert!(mid.is_on_curve());
    assert!(!mid.is_smooth());
    assert_eq!(mid.typ, PointType::OnCurveCorner);
}

#[test]
fn delete_absent_identity_is_a_no_op() {
    let pts = vec![on(1, 0, 0), on(2, 10, 0)];
    let mut c = PathPoints::from_raw_parts(pid(), pts.clone(), None, false);
    c.delete_points(&[EntityId::new(77, 99)]);
    assert_eq!(c.as_slice(), pts.as_slice());
}

#[test]
fn update_handle_axis_locked_snaps_and_mirrors_partner() {
    // smooth on-curve at (10,10); moved handle snaps to the dominant axis,
    // and the partner keeps its own distance (10) on the mirrored side
    let pts = vec![
        on(1, 0, 0),
        off(2, 1, 1),
        off(3, 4, 2),
        smooth(4, 10, 10),
        off(5, 12, 13),
        off(6, 18, 18),
        on(7, 20, 20),
    ];
    let mut c = PathPoints::from_raw_parts(pid(), pts, None, false);
    c.update_handle(EntityId::new(77, 5), DPoint::new(20, 15), true);
    let moved = c.as_slice()[4];
    // (20,15) relative to (10,10) is (10,5): x dominates, y snaps to 10
    assert_eq!(moved.point, DPoint::new(20, 10));
    // partner at (4,2) was at distance 10 from (10,10); it mirrors to (0,10)
    let partner = c.as_slice()[2];
    assert_eq!(partner.point, DPoint::new(0, 10));
}

#[test]
fn update_handle_on_curve_identity_is_a_no_op() {
    let pts = vec![on(1, 0, 0), off(2, 1, 1), off(3, 2, 2), on(4, 3, 3)];
    let mut c = PathPoints::from_raw_parts(pid(), pts.clone(), None, false);
    c.update_handle(EntityId::new(77, 1), DPoint::new(50, 50), false);
    assert_eq!(c.as_slice(), pts.as_slice());
}

#[test]
fn split_line_segment_inserts_midpoint() {
    let pts = vec![on(1, 0, 0), on(2, 10, 0)];
    let mut c = PathPoints::from_raw_parts(pid(), pts, None, false);
    let a = c.as_slice()[0];
    let b = c.as_slice()[1];
    let m = on(9, 5, 0);
    let old = Segment::Line(a, b);
    let pre = Segment::Line(a, m);
    let post = Segment::Line(m, b);
    c.split_segment(old, pre, post);
    let raws: Vec<u64> = c.as_slice().iter().map(|p| p.id.raw).collect();
    assert_eq!(raws, vec![1, 9, 2]);
    assert_eq!(c.as_slice()[1].point, DPoint::new(5, 0));
}

#[test]
fn split_cubic_segment_inserts_five_points() {
    let pts = vec![on(1, 0, 0), off(2, 0, 10), off(3, 10, 10), on(4, 10, 0)];
    let mut c = PathPoints::from_raw_parts(pid(), pts, None, false);
    let a = c.as_slice()[0];
    let b = c.as_slice()[3];
    let m = on(10, 5, 7);
    let old = Segment::Cubic(a, c.as_slice()[1], c.as_slice()[2], b);
    let pre = Segment::Cubic(a, off(11, 0, 5), off(12, 2, 7), m);
    let post = Segment::Cubic(m, off(13, 8, 7), off(14, 10, 5), b);
    c.split_segment(old, pre, post);
    let raws: Vec<u64> = c.as_slice().iter().map(|p| p.id.raw).collect();
    // post's end is the old end, dropped by truncation rather than duplicated
    assert_eq!(raws, vec![1, 11, 12, 10, 13, 14, 4]);
}

#[test]
fn replace_line_with_cubic_keeps_shared_end_once() {
    let pts = vec![on(1, 0, 0), on(2, 10, 0)];
    let mut c = PathPoints::from_raw_parts(pid(), pts, None, false);
    let a = c.as_slice()[0];
    let b = c.as_slice()[1];
    let old = Segment::Line(a, b);
    let new_seg = Segment::Cubic(a, off(5, 3, 5), off(6, 7, 5), b);
    c.replace_segment(old, new_seg);
    let raws: Vec<u64> = c.as_slice().iter().map(|p| p.id.raw).collect();
    assert_eq!(raws, vec![1, 5, 6, 2]);
}

#[test]
fn replace_cubic_with_line_drops_controls() {
    let pts = vec![on(1, 0, 0), off(2, 0, 10), off(3, 10, 10), on(4, 10, 0)];
    let mut c = PathPoints::from_raw_parts(pid(), pts, None, false);
    let a = c.as_slice()[0];
    let b = c.as_slice()[3];
    let old = Segment::Cubic(a, c.as_slice()[1], c.as_slice()[2], b);
    c.replace_segment(old, Segment::Line(a, b));
    let raws: Vec<u64> = c.as_slice().iter().map(|p| p.id.raw).collect();
    assert_eq!(raws, vec![1, 4]);
}

#[test]
fn transform_all_translates_points_and_trailing() {
    let pts = vec![on(1, 0, 0), on(2, 10, 0)];
    let mut c = PathPoints::from_raw_parts(pid(), pts, Some(DPoint::new(3, 3)), false);
    let t = contour::design_space::Transform { xx: 1, xy: 0, yx: 0, yy: 1, dx: 5, dy: -2 };
    c.transform_all(t, DPoint::new(0, 0));
    assert_eq!(c.as_slice()[0].point, DPoint::new(5, -2));
    assert_eq!(c.as_slice()[1].point, DPoint::new(15, -2));
    assert_eq!(c.trailing().copied(), Some(DPoint::new(8, 1)));
}

#[test]
fn transform_all_scales_about_anchor() {
    let pts = vec![on(1, 0, 0), on(2, 10, 0)];
    let mut c = PathPoints::from_raw_parts(pid(), pts, None, false);
    let t = contour::design_space::Transform { xx: 2, xy: 0, yx: 0, yy: 2, dx: 0, dy: 0 };
    c.transform_all(t, DPoint::new(10, 0));
    // the anchor is a fixed point of the scaling
    assert_eq!(c.as_slice()[0].point, DPoint::new(-10, 0));
    assert_eq!(c.as_slice()[1].point, DPoint::new(10, 0));
}

#[test]
fn transform_points_drags_adjacent_handles_along() {
    let pts = vec![
        on(1, 0, 0),
        off(2, 10, 0),
        off(3, 20, 10),
        on(4, 30, 10),
    ];
    let mut c = PathPoints::from_raw_parts(pid(), pts, None, false);
    let t = contour::design_space::Transform { xx: 1, xy: 0, yx: 0, yy: 1, dx: 0, dy: 7 };
    // selecting the end vertex also moves its handle at index 2
    c.transform_points(&[EntityId::new(77, 4)], t, DPoint::new(0, 0));
    assert_eq!(c.as_slice()[0].point, DPoint::new(0, 0));
    assert_eq!(c.as_slice()[1].point, DPoint::new(10, 0));
    assert_eq!(c.as_slice()[2].point, DPoint::new(20, 17));
    assert_eq!(c.as_slice()[3].point, DPoint::new(30, 17));
}

#[test]
fn reverse_contour_keeps_closed_start_in_place() {
    let pts = vec![on(1, 0, 0), on(2, 10, 0), on(3, 5, 8)];
    let mut c = PathPoints::from_raw_parts(pid(), pts, None, true);
    let start = c.as_slice().last().unwrap().id;
    c.reverse_contour();
    assert_eq!(c.as_slice().last().unwrap().id, start);
    let raws: Vec<u64> = c.as_slice().iter().map(|p| p.id.raw).collect();
    assert_eq!(raws, vec![2, 1, 3]);
}

#[test]
fn reverse_open_contour_flips_everything() {
    let pts = vec![on(1, 0, 0), off(2, 1, 1), off(3, 2, 2), on(4, 3, 3)];
    let mut c = PathPoints::from_raw_parts(pid(), pts, None, false);
    c.reverse_contour();
    let raws: Vec<u64> = c.as_slice().iter().map(|p| p.id.raw).collect();
    assert_eq!(raws, vec![4, 3, 2, 1]);
}

#[test]
fn trailing_point_bookkeeping() {
    let mut c = PathPoints::new(pid(), DPoint::new(0, 0));
    assert!(c.trailing().is_none());
    c.set_trailing(DPoint::new(9, 9));
    assert_eq!(c.trailing().copied(), Some(DPoint::new(9, 9)));
    c.clear_trailing();
    assert!(c.trailing().is_none());
    // an open contour reports its last stored point as the trailing vertex
    assert_eq!(c.trailing_point_in_open_path().unwrap().id, c.start_point().id);
    let closed = PathPoints::from_raw_parts(
        pid(),
        vec![on(1, 0, 0), on(2, 1, 0), on(3, 1, 1)],
        None,
        true,
    );
    assert!(closed.trailing_point_in_open_path().is_none());
}

#[test]
fn id_based_queries_wrap_on_closed_contours() {
    let pts = vec![on(1, 0, 0), on(2, 10, 0), on(3, 5, 8)];
    let mut c = PathPoints::from_raw_parts(pid(), pts, None, true);
    let p = c.path_point_for_id(EntityId::new(77, 2)).unwrap();
    assert_eq!(p.point, DPoint::new(10, 0));
    // wraparound: before the first stored point comes the last
    assert_eq!(c.prev_point(EntityId::new(77, 1)).unwrap().id.raw, 3);
    assert_eq!(c.next_point(EntityId::new(77, 3)).unwrap().id.raw, 1);
    assert!(c.path_point_for_id(EntityId::new(77, 9)).is_none());
}

#[test]
fn id_based_queries_stop_at_open_boundary() {
    let pts = vec![on(1, 0, 0), on(2, 10, 0)];
    let mut c = PathPoints::from_raw_parts(pid(), pts, None, false);
    assert!(c.prev_point(EntityId::new(77, 1)).is_none());
    assert!(c.next_point(EntityId::new(77, 2)).is_none());
    assert_eq!(c.next_point(EntityId::new(77, 1)).unwrap().id.raw, 2);
}

#[test]
fn cursor_steps_and_peeks() {
    let pts = vec![on(1, 0, 0), on(2, 10, 0), on(3, 5, 8)];
    let c = PathPoints::from_raw_parts(pid(), pts, None, true);
    // without an identity the cursor starts at the canonical start
    let mut cur = c.cursor(None);
    assert_eq!(cur.point().unwrap().id.raw, 3);
    assert_eq!(cur.peek_next().unwrap().id.raw, 1);
    assert_eq!(cur.peek_prev().unwrap().id.raw, 2);
    cur.move_next();
    assert_eq!(cur.point().unwrap().id.raw, 1);
    cur.move_prev();
    assert_eq!(cur.point().unwrap().id.raw, 3);

    let open = PathPoints::from_raw_parts(pid(), vec![on(1, 0, 0), on(2, 1, 1)], None, false);
    let mut cur = open.cursor(Some(EntityId::new(77, 2)));
    assert_eq!(cur.point().unwrap().id.raw, 2);
    assert!(cur.peek_next().is_none());
    cur.move_next();
    assert!(cur.point().is_none());
}

#[test]
fn last_segment_and_last_on_curve_point() {
    let pts = vec![on(1, 0, 0), off(2, 1, 1), off(3, 2, 2), on(4, 3, 3)];
    let c = PathPoints::from_raw_parts(pid(), pts, None, false);
    assert!(c.last_segment_is_curve());
    assert_eq!(c.last_on_curve_point().id.raw, 4);

    let tri = PathPoints::from_raw_parts(
        pid(),
        vec![on(1, 0, 0), on(2, 1, 0), on(3, 1, 1)],
        None,
        true,
    );
    assert!(!tri.last_segment_is_curve());
    // in a closed contour this is the on-curve point before the start
    assert_eq!(tri.last_on_curve_point().id.raw, 2);
}

#[test]
fn delete_overlapping_closures_repairs_contour() {
    // deleting the first and middle vertices removes overlapping closures;
    // the orphaned handle that one pass leaves behind is repaired away, so
    // the open contour still starts on-curve
    let pts = vec![
        on(1, 0, 0),
        off(2, 1, 1),
        off(3, 2, 2),
        on(4, 3, 3),
        off(5, 4, 4),
        off(6, 5, 5),
        on(7, 6, 6),
    ];
    let mut c = PathPoints::from_raw_parts(pid(), pts, None, false);
    c.delete_points(&[EntityId::new(77, 1), EntityId::new(77, 4)]);
    let raws: Vec<u64> = c.as_slice().iter().map(|p| p.id.raw).collect();
    assert_eq!(raws, vec![7]);
    assert!(!c.closed());
    assert!(c.as_slice()[0].is_on_curve());
}

#[test]
fn update_handle_twice_is_idempotent() {
    // re-entering the tangent maintenance with nothing moved changes nothing
    let pts = vec![
        on(1, 0, 0),
        off(2, 1, 1),
        off(3, 4, 2),
        smooth(4, 10, 10),
        off(5, 12, 13),
        off(6, 18, 18),
        on(7, 20, 20),
    ];
    let mut c = PathPoints::from_raw_parts(pid(), pts, None, false);
    c.update_handle(EntityId::new(77, 5), DPoint::new(11, 11), false);
    let once: Vec<PathPoint> = c.as_slice().to_vec();
    c.update_handle(EntityId::new(77, 5), DPoint::new(11, 11), false);
    assert_eq!(c.as_slice(), once.as_slice());
}

#[test]
fn last_on_curve_point_walks_past_trailing_controls() {
    // closed contour whose final stored segment is a cubic: the last
    // on-curve point is the vertex before the control pair, not a control
    let pts = vec![on(1, 0, 0), off(2, 1, 1), off(3, 2, 2), on(4, 3, 3)];
    let c = PathPoints::from_raw_parts(pid(), pts, None, true);
    // stored order: on(1), off(2), off(3), on(4): start is raw 4
    let last = c.last_on_curve_point();
    assert!(last.is_on_curve());
    assert_eq!(last.id.raw, 1);
}

#[test]
fn snapshot_is_independent() {
    let mut c = PathPoints::new(pid(), DPoint::new(0, 0));
    c.push_on_curve(DPoint::new(10, 0));
    let undo = c.snapshot();
    c.push_on_curve(DPoint::new(20, 0));
    assert_eq!(c.len(), 3);
    assert_eq!(undo.len(), 2);
    assert_eq!(undo.as_slice()[1].point, DPoint::new(10, 0));
    assert_eq!(undo.id(), c.id());
}
