//! Sweep-line order of segments.
use polyops::compare_events::compare_events;
use polyops::compare_segments::compare_segments;
use polyops::edge_type::EdgeType;
use polyops::sweep_event::{PolygonType, SweepEvent};
use std::cmp::Ordering;

fn p(x: f64, y: f64) -> [i32; 2] {
    [(x * 10.0).round() as i32, (y * 10.0).round() as i32]
}

fn add_segment(arena: &mut Vec<SweepEvent>, left_pt: [f64; 2], right_pt: [f64; 2], polygon_type: PolygonType) -> usize {
    let left_idx = arena.len();
    arena.push(SweepEvent::new(p(left_pt[0], left_pt[1]), true, polygon_type, EdgeType::Normal));
    let right_idx = arena.len();
    arena.push(SweepEvent::new(p(right_pt[0], right_pt[1]), false, polygon_type, EdgeType::Normal));
    arena[left_idx].other_event = Some(right_idx);
    arena[right_idx].other_event = Some(left_idx);
    left_idx
}

#[test]
fn not_collinear_shared_left_point_orders_by_right_point() {
    let mut arena = Vec::new();
    let e1 = add_segment(&mut arena, [0.0, 0.0], [1.0, 1.0], PolygonType::Subject);
    let e2 = add_segment(&mut arena, [0.0, 0.0], [2.0, 3.0], PolygonType::Subject);
    assert_eq!(compare_segments(&arena, e1, e2), Ordering::Less);
    assert_eq!(compare_segments(&arena, e2, e1), Ordering::Greater);
}

#[test]
fn not_collinear_same_x_different_y_orders_by_left_y() {
    let mut arena = Vec::new();
    let e1 = add_segment(&mut arena, [0.0, 1.0], [1.0, 1.0], PolygonType::Subject);
    let e2 = add_segment(&mut arena, [0.0, 2.0], [2.0, 3.0], PolygonType::Subject);
    assert_eq!(compare_segments(&arena, e1, e2), Ordering::Less);
    assert_eq!(compare_segments(&arena, e2, e1), Ordering::Greater);
}

#[test]
fn maintains_events_order_in_sweep_line() {
    let mut arena = Vec::new();
    let se1 = add_segment(&mut arena, [0.0, 1.0], [2.0, 1.0], PolygonType::Subject);
    let se2 = add_segment(&mut arena, [-1.0, 0.0], [2.0, 3.0], PolygonType::Subject);
    assert_eq!(compare_events(&arena, se1, se2), Ordering::Greater);
    let o2 = arena[arena[se2].other_event.unwrap()].point;
    assert!(!arena[se2].is_below(o2, arena[se1].point));
    assert!(arena[se2].is_above(o2, arena[se1].point));
    assert_eq!(compare_segments(&arena, se1, se2), Ordering::Less);
    assert_eq!(compare_segments(&arena, se2, se1), Ordering::Greater);
}

#[test]
fn handles_when_first_point_is_below() {
    let mut arena = Vec::new();
    let se2 = add_segment(&mut arena, [0.0, 1.0], [2.0, 1.0], PolygonType::Subject);
    let se1 = add_segment(&mut arena, [-1.0, 0.0], [2.0, 3.0], PolygonType::Subject);
    let o1 = arena[arena[se1].other_event.unwrap()].point;
    assert!(!arena[se1].is_below(o1, arena[se2].point));
    assert_eq!(compare_segments(&arena, se1, se2), Ordering::Greater);
}

#[test]
fn collinear_subject_below_clipping() {
    let mut arena = Vec::new();
    let e1 = add_segment(&mut arena, [1.0, 1.0], [5.0, 1.0], PolygonType::Subject);
    let e2 = add_segment(&mut arena, [2.0, 1.0], [3.0, 1.0], PolygonType::Clipping);
    assert_eq!(compare_segments(&arena, e1, e2), Ordering::Less);
    assert_eq!(compare_segments(&arena, e2, e1), Ordering::Greater);
}

#[test]
fn collinear_shared_left_point_tiebreaks_by_contour_id() {
    let mut arena = Vec::new();
    let e1 = add_segment(&mut arena, [0.0, 1.0], [5.0, 1.0], PolygonType::Clipping);
    let e2 = add_segment(&mut arena, [0.0, 1.0], [3.0, 1.0], PolygonType::Clipping);
    arena[e1].contour_id = Some(1);
    arena[e2].contour_id = Some(2);
    assert_eq!(arena[e1].is_subject(), arena[e2].is_subject());
    assert_eq!(arena[e1].point, arena[e2].point);
    assert_eq!(compare_segments(&arena, e1, e2), Ordering::Less);
    arena[e1].contour_id = Some(2);
    arena[e2].contour_id = Some(1);
    assert_eq!(compare_segments(&arena, e1, e2), Ordering::Greater);
}

#[test]
fn collinear_same_polygon_different_left_points() {
    let mut arena = Vec::new();
    let e1 = add_segment(&mut arena, [1.0, 1.0], [5.0, 1.0], PolygonType::Subject);
    let e2 = add_segment(&mut arena, [2.0, 1.0], [3.0, 1.0], PolygonType::Subject);
    assert_eq!(arena[e1].is_subject(), arena[e2].is_subject());
    assert_ne!(arena[e1].point, arena[e2].point);
    assert_eq!(compare_segments(&arena, e1, e2), Ordering::Less);
    assert_eq!(compare_segments(&arena, e2, e1), Ordering::Greater);
}

#[test]
fn same_index_compares_equal() {
    let mut arena = Vec::new();
    let e1 = add_segment(&mut arena, [0.0, 0.0], [1.0, 1.0], PolygonType::Subject);
    assert_eq!(compare_segments(&arena, e1, e1), Ordering::Equal);
}

#[test]
fn identical_segments_of_one_polygon_compare_equal() {
    // different entries, same polygon, same endpoints: `Equal`
    let mut arena = Vec::new();
    let e1 = add_segment(&mut arena, [0.0, 0.0], [1.0, 1.0], PolygonType::Subject);
    let e2 = add_segment(&mut arena, [0.0, 0.0], [1.0, 1.0], PolygonType::Subject);
    assert_eq!(compare_segments(&arena, e1, e2), Ordering::Equal);
    // of different polygons they are told apart
    let e3 = add_segment(&mut arena, [0.0, 0.0], [1.0, 1.0], PolygonType::Clipping);
    assert_eq!(compare_segments(&arena, e1, e3), Ordering::Less);
}
