//! The event queue pops events in the event order.
use polyops::edge_type::EdgeType;
use polyops::event_queue::EventQueue;
use polyops::sweep_event::{PolygonType, SweepEvent};

fn p(x: f64, y: f64) -> [i32; 2] {
    [(x * 10.0).round() as i32, (y * 10.0).round() as i32]
}

fn add_bare_event(arena: &mut Vec<SweepEvent>, point: [i32; 2], left: bool) -> usize {
    let idx = arena.len();
    arena.push(SweepEvent::new(point, left, PolygonType::Subject, EdgeType::Normal));
    idx
}

#[test]
fn empty_queue_pops_none() {
    let mut q = EventQueue::new();
    let arena: Vec<SweepEvent> = Vec::new();
    assert!(q.is_empty());
    assert_eq!(q.pop(&arena), None);
}

#[test]
fn pops_in_compare_events_order_by_x() {
    let mut arena = Vec::new();
    let e0 = add_bare_event(&mut arena, p(5.0, 5.0), true);
    let e1 = add_bare_event(&mut arena, p(0.0, 0.0), true);
    let e2 = add_bare_event(&mut arena, p(3.0, 3.0), true);

    let mut q = EventQueue::new();
    q.push(&arena, e0);
    q.push(&arena, e1);
    q.push(&arena, e2);

    assert_eq!(q.pop(&arena), Some(e1));
    assert_eq!(q.pop(&arena), Some(e2));
    assert_eq!(q.pop(&arena), Some(e0));
    assert_eq!(q.pop(&arena), None);
}

#[test]
fn pops_in_compare_events_order_by_y_when_x_ties() {
    let mut arena = Vec::new();
    let e0 = add_bare_event(&mut arena, p(1.0, 5.0), true);
    let e1 = add_bare_event(&mut arena, p(1.0, 1.0), true);
    let e2 = add_bare_event(&mut arena, p(1.0, 3.0), true);

    let mut q = EventQueue::new();
    q.push(&arena, e0);
    q.push(&arena, e1);
    q.push(&arena, e2);

    assert_eq!(q.pop(&arena), Some(e1));
    assert_eq!(q.pop(&arena), Some(e2));
    assert_eq!(q.pop(&arena), Some(e0));
}

#[test]
fn right_endpoint_sorts_before_left_at_same_point() {
    let mut arena = Vec::new();
    let left = add_bare_event(&mut arena, p(2.0, 2.0), true);
    let right = add_bare_event(&mut arena, p(2.0, 2.0), false);

    let mut q = EventQueue::new();
    q.push(&arena, left);
    q.push(&arena, right);
    assert_eq!(q.pop(&arena), Some(right));
    assert_eq!(q.pop(&arena), Some(left));
}

#[test]
fn len_tracks_pushes_and_pops() {
    let mut arena = Vec::new();
    let a = add_bare_event(&mut arena, p(0.0, 0.0), true);
    let b = add_bare_event(&mut arena, p(1.0, 1.0), true);
    let mut q = EventQueue::new();
    assert_eq!(q.len(), 0);
    q.push(&arena, a);
    assert_eq!(q.len(), 1);
    q.push(&arena, b);
    assert_eq!(q.len(), 2);
    q.pop(&arena);
    assert_eq!(q.len(), 1);
    q.pop(&arena);
    assert!(q.is_empty());
}

#[test]
fn many_pushes_pop_in_sorted_order() {
    let xs = [7, 3, 9, 1, 4, 8, 2, 6, 0, 5];
    let mut arena = Vec::new();
    let mut q = EventQueue::new();
    for x in xs {
        let i = add_bare_event(&mut arena, [x, 0], true);
        q.push(&arena, i);
    }
    let mut last = i32::MIN;
    let mut count = 0;
    while let Some(i) = q.pop(&arena) {
        assert!(arena[i].point[0] > last);
        last = arena[i].point[0];
        count += 1;
    }
    assert_eq!(count, xs.len());
}
