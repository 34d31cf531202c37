//! Initial event-queue population.
use polyops::event_queue::EventQueue;
use polyops::fill_queue::fill_queue;
use polyops::operation::Operation;
use polyops::types::{BBox, MultiPolygon};

fn p(x: f64, y: f64) -> [i32; 2] {
    [(x * 10.0).round() as i32, (y * 10.0).round() as i32]
}

fn empty_bbox() -> BBox {
    [i64::MAX, i64::MAX, i64::MIN, i64::MIN]
}

fn unit_triangle() -> MultiPolygon {
    vec![vec![vec![p(0.0, 0.0), p(4.0, 0.0), p(2.0, 3.0), p(0.0, 0.0)]]]
}

#[test]
fn empty_inputs_produce_no_events() {
    let mut arena = Vec::new();
    let mut q = EventQueue::new();
    let mut sbb = empty_bbox();
    let mut cbb = empty_bbox();
    fill_queue(&mut arena, &mut q, &vec![], &vec![], &mut sbb, &mut cbb, Operation::Intersection);
    assert!(arena.is_empty());
    assert!(q.is_empty());
}

#[test]
fn single_subject_triangle_produces_six_events_and_correct_bbox() {
    let mut arena = Vec::new();
    let mut q = EventQueue::new();
    let mut sbb = empty_bbox();
    let mut cbb = empty_bbox();
    fill_queue(&mut arena, &mut q, &unit_triangle(), &vec![], &mut sbb, &mut cbb, Operation::Intersection);
    assert_eq!(arena.len(), 6);
    assert_eq!(q.len(), 6);
    assert_eq!(sbb, [0, 0, 40, 30]);
    assert_eq!(cbb, empty_bbox());
}

#[test]
fn collapsed_edges_are_skipped() {
    let ring = vec![p(0.0, 0.0), p(1.0, 1.0), p(1.0, 1.0), p(2.0, 0.0), p(0.0, 0.0)];
    let poly: MultiPolygon = vec![vec![ring]];
    let mut arena = Vec::new();
    let mut q = EventQueue::new();
    let mut sbb = empty_bbox();
    let mut cbb = empty_bbox();
    fill_queue(&mut arena, &mut q, &poly, &vec![], &mut sbb, &mut cbb, Operation::Intersection);
    assert_eq!(arena.len(), 6);
}

#[test]
fn each_edge_yields_one_left_and_one_right_event() {
    let mut arena = Vec::new();
    let mut q = EventQueue::new();
    let mut sbb = empty_bbox();
    let mut cbb = empty_bbox();
    fill_queue(&mut arena, &mut q, &unit_triangle(), &vec![], &mut sbb, &mut cbb, Operation::Intersection);
    for pair in (0..arena.len()).step_by(2) {
        let left_count = (arena[pair].left as u8) + (arena[pair + 1].left as u8);
        assert_eq!(left_count, 1, "edge events at indices {pair}, {} should be one left + one right", pair + 1);
        assert_eq!(arena[pair].other_event, Some(pair + 1));
        assert_eq!(arena[pair + 1].other_event, Some(pair));
    }
}

#[test]
fn holes_have_is_exterior_ring_false() {
    let exterior = vec![p(0.0, 0.0), p(10.0, 0.0), p(10.0, 10.0), p(0.0, 10.0), p(0.0, 0.0)];
    let hole = vec![p(2.0, 2.0), p(4.0, 2.0), p(4.0, 4.0), p(2.0, 4.0), p(2.0, 2.0)];
    let poly: MultiPolygon = vec![vec![exterior, hole]];
    let mut arena = Vec::new();
    let mut q = EventQueue::new();
    let mut sbb = empty_bbox();
    let mut cbb = empty_bbox();
    fill_queue(&mut arena, &mut q, &poly, &vec![], &mut sbb, &mut cbb, Operation::Intersection);
    for ev in arena.iter().take(8) {
        assert!(ev.is_exterior_ring);
    }
    for ev in arena.iter().skip(8) {
        assert!(!ev.is_exterior_ring);
    }
}

#[test]
fn difference_flips_clipping_exterior_to_non_exterior() {
    let subject = unit_triangle();
    let clipping = unit_triangle();
    let mut arena = Vec::new();
    let mut q = EventQueue::new();
    let mut sbb = empty_bbox();
    let mut cbb = empty_bbox();
    fill_queue(&mut arena, &mut q, &subject, &clipping, &mut sbb, &mut cbb, Operation::Difference);
    for ev in arena.iter().take(6) {
        assert!(ev.is_exterior_ring, "subject events should keep exterior flag");
    }
    for ev in arena.iter().skip(6) {
        assert!(!ev.is_exterior_ring, "clipping events should be flipped under DIFFERENCE");
    }
}

#[test]
fn each_polygon_gets_distinct_contour_id() {
    let mp: MultiPolygon = vec![
        vec![vec![p(0.0, 0.0), p(1.0, 0.0), p(0.5, 1.0), p(0.0, 0.0)]],
        vec![vec![p(2.0, 0.0), p(3.0, 0.0), p(2.5, 1.0), p(2.0, 0.0)]],
    ];
    let mut arena = Vec::new();
    let mut q = EventQueue::new();
    let mut sbb = empty_bbox();
    let mut cbb = empty_bbox();
    fill_queue(&mut arena, &mut q, &mp, &vec![], &mut sbb, &mut cbb, Operation::Intersection);
    for ev in arena.iter().take(6) {
        assert_eq!(ev.contour_id, Some(1));
    }
    for ev in arena.iter().skip(6) {
        assert_eq!(ev.contour_id, Some(2));
    }
}

#[test]
fn left_event_is_the_lexicographically_smaller_endpoint() {
    let mut arena = Vec::new();
    let mut q = EventQueue::new();
    let mut sbb = empty_bbox();
    let mut cbb = empty_bbox();
    fill_queue(&mut arena, &mut q, &unit_triangle(), &vec![], &mut sbb, &mut cbb, Operation::Union);
    for pair in (0..arena.len()).step_by(2) {
        let (l, r) = if arena[pair].left { (pair, pair + 1) } else { (pair + 1, pair) };
        assert!(arena[l].point < arena[r].point);
    }
    // every queued event pops exactly once, in lexicographic point order
    let mut popped = Vec::new();
    while let Some(e) = q.pop(&arena) {
        popped.push(e);
    }
    assert_eq!(popped.len(), 6);
    for w in popped.windows(2) {
        assert!(arena[w[0]].point <= arena[w[1]].point);
    }
    let mut sorted = popped.clone();
    sorted.sort();
    assert_eq!(sorted, vec![0, 1, 2, 3, 4, 5]);
}
