//! The sweep itself.
use polyops::event_queue::EventQueue;
use polyops::fill_queue::fill_queue;
use polyops::operation::Operation;
use polyops::subdivide_segments::subdivide_segments;
use polyops::types::{BBox, MultiPolygon};

fn p(x: f64, y: f64) -> [i32; 2] {
    [(x * 10.0).round() as i32, (y * 10.0).round() as i32]
}

fn empty_bbox() -> BBox {
    [i64::MAX, i64::MAX, i64::MIN, i64::MIN]
}

fn unit_square_at(origin: [f64; 2]) -> MultiPolygon {
    let [x, y] = origin;
    vec![vec![vec![p(x, y), p(x + 1.0, y), p(x + 1.0, y + 1.0), p(x, y + 1.0), p(x, y)]]]
}

#[test]
fn empty_queue_returns_empty_sorted_events() {
    let mut arena = Vec::new();
    let mut q = EventQueue::new();
    let result = subdivide_segments(&mut arena, &mut q, empty_bbox(), empty_bbox(), Operation::Union);
    assert!(result.is_empty());
}

#[test]
fn single_subject_drains_the_queue() {
    let mut arena = Vec::new();
    let mut q = EventQueue::new();
    let mut sbb = empty_bbox();
    let mut cbb = empty_bbox();
    fill_queue(&mut arena, &mut q, &unit_square_at([0.0, 0.0]), &vec![], &mut sbb, &mut cbb, Operation::Union);
    let event_count_before = arena.len();
    let result = subdivide_segments(&mut arena, &mut q, sbb, cbb, Operation::Union);
    assert_eq!(arena.len(), event_count_before);
    assert_eq!(result.len(), event_count_before);
}

#[test]
fn two_overlapping_squares_produce_extra_events_from_intersection() {
    let mut arena = Vec::new();
    let mut q = EventQueue::new();
    let mut sbb = empty_bbox();
    let mut cbb = empty_bbox();
    fill_queue(
        &mut arena,
        &mut q,
        &unit_square_at([0.0, 0.0]),
        &unit_square_at([0.5, 0.5]),
        &mut sbb,
        &mut cbb,
        Operation::Union,
    );
    let initial_event_count = arena.len();
    assert_eq!(initial_event_count, 16);

    let result = subdivide_segments(&mut arena, &mut q, sbb, cbb, Operation::Union);
    assert!(arena.len() > initial_event_count);
    assert!(!result.is_empty());
}

#[test]
fn intersection_bbox_shortcut_stops_early() {
    let mut arena = Vec::new();
    let mut q = EventQueue::new();
    let mut sbb = empty_bbox();
    let mut cbb = empty_bbox();
    fill_queue(
        &mut arena,
        &mut q,
        &unit_square_at([0.0, 0.0]),
        &unit_square_at([5.0, 0.0]),
        &mut sbb,
        &mut cbb,
        Operation::Intersection,
    );
    let result = subdivide_segments(&mut arena, &mut q, sbb, cbb, Operation::Intersection);
    assert!(result.len() < arena.len());
}

#[test]
fn every_popped_event_appears_once_and_queue_drains() {
    let mut arena = Vec::new();
    let mut q = EventQueue::new();
    let mut sbb = empty_bbox();
    let mut cbb = empty_bbox();
    fill_queue(
        &mut arena,
        &mut q,
        &unit_square_at([0.0, 0.0]),
        &unit_square_at([0.5, 0.5]),
        &mut sbb,
        &mut cbb,
        Operation::Union,
    );
    let result = subdivide_segments(&mut arena, &mut q, sbb, cbb, Operation::Union);
    assert!(q.is_empty());
    let mut seen = vec![false; arena.len()];
    for &i in &result {
        assert!(!seen[i]);
        seen[i] = true;
    }
    assert_eq!(result.len(), arena.len());
    // Popped in non-decreasing x.
    for w in result.windows(2) {
        assert!(arena[w[0]].point[0] <= arena[w[1]].point[0]);
    }
}
