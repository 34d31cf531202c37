//! The sweep line keeps segments ordered bottom to top.
use polyops::edge_type::EdgeType;
use polyops::sweep_event::{PolygonType, SweepEvent};
use polyops::sweep_line::SweepLine;

fn p(x: f64, y: f64) -> [i32; 2] {
    [(x * 10.0).round() as i32, (y * 10.0).round() as i32]
}

fn add_segment(arena: &mut Vec<SweepEvent>, left_pt: [i32; 2], right_pt: [i32; 2]) -> usize {
    let left_idx = arena.len();
    arena.push(SweepEvent::new(left_pt, true, PolygonType::Subject, EdgeType::Normal));
    let right_idx = arena.len();
    arena.push(SweepEvent::new(right_pt, false, PolygonType::Subject, EdgeType::Normal));
    arena[left_idx].other_event = Some(right_idx);
    arena[right_idx].other_event = Some(left_idx);
    left_idx
}

#[test]
fn empty_line_has_no_min() {
    let sl = SweepLine::new();
    assert!(sl.is_empty());
    assert_eq!(sl.min(), None);
}

#[test]
fn insert_orders_by_compare_segments() {
    let mut arena = Vec::new();
    let lower = add_segment(&mut arena, p(0.0, 0.0), p(5.0, 1.0));
    let upper = add_segment(&mut arena, p(0.0, 0.0), p(5.0, 3.0));

    let mut sl = SweepLine::new();
    sl.insert(&arena, upper);
    sl.insert(&arena, lower);

    assert_eq!(sl.at(0), Some(lower));
    assert_eq!(sl.at(1), Some(upper));
    assert_eq!(sl.min(), Some(lower));
}

#[test]
fn remove_takes_event_out_of_the_line() {
    let mut arena = Vec::new();
    let a = add_segment(&mut arena, p(0.0, 0.0), p(5.0, 1.0));
    let b = add_segment(&mut arena, p(0.0, 0.0), p(5.0, 3.0));
    let mut sl = SweepLine::new();
    sl.insert(&arena, a);
    sl.insert(&arena, b);
    assert!(sl.remove(&arena, a));
    assert_eq!(sl.len(), 1);
    assert_eq!(sl.min(), Some(b));
    assert!(!sl.remove(&arena, a));
}

#[test]
fn prev_and_next_navigate_neighbours() {
    let mut arena = Vec::new();
    let a = add_segment(&mut arena, p(0.0, 0.0), p(5.0, 1.0));
    let b = add_segment(&mut arena, p(0.0, 0.0), p(5.0, 2.0));
    let c = add_segment(&mut arena, p(0.0, 0.0), p(5.0, 3.0));
    let mut sl = SweepLine::new();
    sl.insert(&arena, a);
    sl.insert(&arena, b);
    sl.insert(&arena, c);
    let pos = sl.position(&arena, b).unwrap();
    assert_eq!(sl.prev(pos), Some(a));
    assert_eq!(sl.next(pos), Some(c));
}

#[test]
fn prev_at_position_zero_is_none() {
    let mut arena = Vec::new();
    let a = add_segment(&mut arena, p(0.0, 0.0), p(5.0, 1.0));
    let mut sl = SweepLine::new();
    sl.insert(&arena, a);
    assert_eq!(sl.prev(0), None);
}

#[test]
fn at_past_the_end_and_next_of_last_are_none() {
    let mut arena = Vec::new();
    let a = add_segment(&mut arena, p(0.0, 0.0), p(5.0, 1.0));
    let mut sl = SweepLine::new();
    sl.insert(&arena, a);
    assert_eq!(sl.at(1), None);
    assert_eq!(sl.next(0), None);
}

#[test]
fn remove_at_drops_the_entry() {
    let mut arena = Vec::new();
    let a = add_segment(&mut arena, p(0.0, 0.0), p(5.0, 1.0));
    let b = add_segment(&mut arena, p(0.0, 0.0), p(5.0, 3.0));
    let mut sl = SweepLine::new();
    sl.insert(&arena, a);
    sl.insert(&arena, b);
    sl.remove_at(0);
    assert_eq!(sl.len(), 1);
    assert_eq!(sl.at(0), Some(b));
    assert_eq!(sl.position(&arena, a), None);
}
