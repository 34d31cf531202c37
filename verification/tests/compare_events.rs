//! Event order of the priority queue.
use polyops::compare_events::compare_events;
use polyops::edge_type::EdgeType;
use polyops::sweep_event::{PolygonType, SweepEvent};
use std::cmp::Ordering;

/// A point given in units, on the lattice of tenths.
fn p(x: f64, y: f64) -> [i32; 2] {
    [(x * 10.0).round() as i32, (y * 10.0).round() as i32]
}

fn add_segment(arena: &mut Vec<SweepEvent>, left_pt: [f64; 2], right_pt: [f64; 2], polygon_type: PolygonType) -> (usize, usize) {
    let left_idx = arena.len();
    arena.push(SweepEvent::new(p(left_pt[0], left_pt[1]), true, polygon_type, EdgeType::Normal));
    let right_idx = arena.len();
    arena.push(SweepEvent::new(p(right_pt[0], right_pt[1]), false, polygon_type, EdgeType::Normal));
    arena[left_idx].other_event = Some(right_idx);
    arena[right_idx].other_event = Some(left_idx);
    (left_idx, right_idx)
}

fn add_bare_event(arena: &mut Vec<SweepEvent>, point: [f64; 2], left: bool) -> usize {
    let idx = arena.len();
    arena.push(SweepEvent::new(p(point[0], point[1]), left, PolygonType::Subject, EdgeType::Normal));
    idx
}

#[test]
fn compares_x_coordinates() {
    let mut arena = Vec::new();
    let e1 = add_bare_event(&mut arena, [0.0, 0.0], true);
    let e2 = add_bare_event(&mut arena, [0.5, 0.5], true);
    assert_eq!(compare_events(&arena, e1, e2), Ordering::Less);
    assert_eq!(compare_events(&arena, e2, e1), Ordering::Greater);
}

#[test]
fn compares_y_coordinates_when_x_ties() {
    let mut arena = Vec::new();
    let e1 = add_bare_event(&mut arena, [0.0, 0.0], true);
    let e2 = add_bare_event(&mut arena, [0.0, 0.5], true);
    assert_eq!(compare_events(&arena, e1, e2), Ordering::Less);
    assert_eq!(compare_events(&arena, e2, e1), Ordering::Greater);
}

#[test]
fn processes_right_endpoint_before_left_when_points_tie() {
    let mut arena = Vec::new();
    let e1 = add_bare_event(&mut arena, [0.0, 0.0], true);
    let e2 = add_bare_event(&mut arena, [0.0, 0.0], false);
    assert_eq!(compare_events(&arena, e1, e2), Ordering::Greater);
    assert_eq!(compare_events(&arena, e2, e1), Ordering::Less);
}

#[test]
fn shared_start_not_collinear_processes_lower_edge_first() {
    let mut arena = Vec::new();
    let (e1, _) = add_segment(&mut arena, [0.0, 0.0], [1.0, 1.0], PolygonType::Subject);
    let (e2, _) = add_segment(&mut arena, [0.0, 0.0], [2.0, 3.0], PolygonType::Subject);
    assert_eq!(compare_events(&arena, e1, e2), Ordering::Less);
    assert_eq!(compare_events(&arena, e2, e1), Ordering::Greater);
}

#[test]
fn collinear_subject_sorts_before_clipping() {
    let mut arena = Vec::new();
    let (e1, _) = add_segment(&mut arena, [0.0, 0.0], [1.0, 1.0], PolygonType::Subject);
    let (e2, _) = add_segment(&mut arena, [0.0, 0.0], [2.0, 2.0], PolygonType::Clipping);
    assert_eq!(compare_events(&arena, e1, e2), Ordering::Less);
    assert_eq!(compare_events(&arena, e2, e1), Ordering::Greater);
}

#[test]
fn event_order_never_answers_equal() {
    // two collinear subject segments from one point: each comes before
    // the other, and neither compares equal
    let mut arena = Vec::new();
    let (e1, _) = add_segment(&mut arena, [0.0, 0.0], [1.0, 1.0], PolygonType::Subject);
    let (e2, _) = add_segment(&mut arena, [0.0, 0.0], [2.0, 2.0], PolygonType::Subject);
    assert_ne!(compare_events(&arena, e1, e2), Ordering::Equal);
    assert_ne!(compare_events(&arena, e2, e1), Ordering::Equal);
    assert_ne!(compare_events(&arena, e1, e1), Ordering::Equal);
}
