//! Sweep-time intersection handling.
use polyops::edge_type::EdgeType;
use polyops::event_queue::EventQueue;
use polyops::possible_intersection::possible_intersection;
use polyops::sweep_event::{PolygonType, SweepEvent};

fn p(x: f64, y: f64) -> [i32; 2] {
    [(x * 10.0).round() as i32, (y * 10.0).round() as i32]
}

fn add_segment(arena: &mut Vec<SweepEvent>, left_pt: [f64; 2], right_pt: [f64; 2], polygon_type: PolygonType) -> usize {
    let left_idx = arena.len();
    arena.push(SweepEvent::new(p(left_pt[0], left_pt[1]), true, polygon_type, EdgeType::Normal));
    let right_idx = arena.len();
    arena.push(SweepEvent::new(p(right_pt[0], right_pt[1]), false, polygon_type, EdgeType::Normal));
    arena[left_idx].other_event = Some(right_idx);
    arena[right_idx].other_event = Some(left_idx);
    left_idx
}

#[test]
fn non_intersecting_segments_return_zero() {
    let mut arena = Vec::new();
    let mut q = EventQueue::new();
    let a = add_segment(&mut arena, [0.0, 0.0], [1.0, 0.0], PolygonType::Subject);
    let b = add_segment(&mut arena, [0.0, 1.0], [1.0, 1.0], PolygonType::Clipping);
    assert_eq!(possible_intersection(&mut arena, &mut q, a, b), 0);
    assert!(q.is_empty());
}

#[test]
fn interior_crossing_returns_one_and_creates_four_new_events() {
    let mut arena = Vec::new();
    let mut q = EventQueue::new();
    let a = add_segment(&mut arena, [0.0, 0.0], [4.0, 4.0], PolygonType::Subject);
    let b = add_segment(&mut arena, [0.0, 4.0], [4.0, 0.0], PolygonType::Clipping);
    let before = arena.len();
    assert_eq!(possible_intersection(&mut arena, &mut q, a, b), 1);
    assert_eq!(arena.len(), before + 4);
    assert_eq!(q.len(), 4);
    // all four new events sit at the crossing
    for e in before..arena.len() {
        assert_eq!(arena[e].point, p(2.0, 2.0));
    }
}

#[test]
fn shared_left_endpoint_only_returns_zero() {
    let mut arena = Vec::new();
    let mut q = EventQueue::new();
    let a = add_segment(&mut arena, [0.0, 0.0], [4.0, 4.0], PolygonType::Subject);
    let b = add_segment(&mut arena, [0.0, 0.0], [4.0, -4.0], PolygonType::Clipping);
    assert_eq!(possible_intersection(&mut arena, &mut q, a, b), 0);
    assert!(q.is_empty());
}

#[test]
fn same_polygon_overlap_returns_zero() {
    let mut arena = Vec::new();
    let mut q = EventQueue::new();
    let a = add_segment(&mut arena, [0.0, 0.0], [5.0, 0.0], PolygonType::Subject);
    let b = add_segment(&mut arena, [2.0, 0.0], [7.0, 0.0], PolygonType::Subject);
    assert_eq!(possible_intersection(&mut arena, &mut q, a, b), 0);
    assert!(q.is_empty());
}

#[test]
fn collinear_overlap_different_polygons_marks_edge_types_and_splits() {
    let mut arena = Vec::new();
    let mut q = EventQueue::new();
    let a = add_segment(&mut arena, [0.0, 0.0], [5.0, 0.0], PolygonType::Subject);
    let b = add_segment(&mut arena, [2.0, 0.0], [7.0, 0.0], PolygonType::Clipping);
    let ret = possible_intersection(&mut arena, &mut q, a, b);
    assert_eq!(ret, 3);
    assert!(!q.is_empty());
}

#[test]
fn collinear_left_coincident_marks_non_contributing() {
    let mut arena = Vec::new();
    let mut q = EventQueue::new();
    let a = add_segment(&mut arena, [0.0, 0.0], [5.0, 0.0], PolygonType::Subject);
    let b = add_segment(&mut arena, [0.0, 0.0], [3.0, 0.0], PolygonType::Clipping);
    assert_eq!(possible_intersection(&mut arena, &mut q, a, b), 2);
    assert_eq!(arena[b].edge_type, EdgeType::NonContributing);
    assert!(matches!(arena[a].edge_type, EdgeType::SameTransition | EdgeType::DifferentTransition));
}

#[test]
fn collinear_right_coincident_only_splits_once() {
    let mut arena = Vec::new();
    let mut q = EventQueue::new();
    let a = add_segment(&mut arena, [0.0, 0.0], [5.0, 0.0], PolygonType::Subject);
    let b = add_segment(&mut arena, [2.0, 0.0], [5.0, 0.0], PolygonType::Clipping);
    let before = arena.len();
    assert_eq!(possible_intersection(&mut arena, &mut q, a, b), 3);
    assert_eq!(arena.len(), before + 2);
}

#[test]
fn contained_overlap_splits_the_longer_segment_twice() {
    let mut arena = Vec::new();
    let mut q = EventQueue::new();
    let a = add_segment(&mut arena, [0.0, 0.0], [7.0, 0.0], PolygonType::Subject);
    let b = add_segment(&mut arena, [2.0, 0.0], [5.0, 0.0], PolygonType::Clipping);
    let before = arena.len();
    assert_eq!(possible_intersection(&mut arena, &mut q, a, b), 3);
    assert_eq!(arena.len(), before + 4);
    assert_eq!(q.len(), 4);
    // the longer segment now ends where the shorter starts
    let a_peer = arena[a].other_event.unwrap();
    assert_eq!(arena[a_peer].point, p(2.0, 0.0));
}
