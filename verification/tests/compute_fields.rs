//! Per-event classification.
use polyops::compute_fields::compute_fields;
use polyops::edge_type::EdgeType;
use polyops::operation::Operation;
use polyops::sweep_event::{PolygonType, SweepEvent};

fn p(x: f64, y: f64) -> [i32; 2] {
    [(x * 10.0).round() as i32, (y * 10.0).round() as i32]
}

fn add_segment(arena: &mut Vec<SweepEvent>, left_pt: [f64; 2], right_pt: [f64; 2], polygon_type: PolygonType) -> usize {
    let left_idx = arena.len();
    arena.push(SweepEvent::new(p(left_pt[0], left_pt[1]), true, polygon_type, EdgeType::Normal));
    let right_idx = arena.len();
    arena.push(SweepEvent::new(p(right_pt[0], right_pt[1]), false, polygon_type, EdgeType::Normal));
    arena[left_idx].other_event = Some(right_idx);
    arena[right_idx].other_event = Some(left_idx);
    left_idx
}

#[test]
fn no_predecessor_sets_default_in_out_flags() {
    let mut arena = Vec::new();
    let e = add_segment(&mut arena, [0.0, 0.0], [1.0, 1.0], PolygonType::Subject);
    compute_fields(&mut arena, e, None, Operation::Intersection);
    assert!(!arena[e].in_out);
    assert!(arena[e].other_in_out);
}

#[test]
fn same_polygon_flips_in_out_preserves_other_in_out() {
    let mut arena = Vec::new();
    let prev = add_segment(&mut arena, [0.0, 0.0], [2.0, 2.0], PolygonType::Subject);
    let cur = add_segment(&mut arena, [1.0, 0.0], [3.0, 2.0], PolygonType::Subject);
    arena[prev].in_out = true;
    arena[prev].other_in_out = false;
    compute_fields(&mut arena, cur, Some(prev), Operation::Union);
    assert!(!arena[cur].in_out);
    assert!(!arena[cur].other_in_out);
}

#[test]
fn different_polygon_non_vertical_cross_couples() {
    let mut arena = Vec::new();
    let prev = add_segment(&mut arena, [0.0, 0.0], [2.0, 2.0], PolygonType::Clipping);
    let cur = add_segment(&mut arena, [1.0, 0.0], [3.0, 2.0], PolygonType::Subject);
    arena[prev].in_out = false;
    arena[prev].other_in_out = true;
    compute_fields(&mut arena, cur, Some(prev), Operation::Intersection);
    assert!(!arena[cur].in_out);
    assert!(!arena[cur].other_in_out);
}

#[test]
fn different_polygon_vertical_predecessor_flips_other_in_out() {
    let mut arena = Vec::new();
    let prev = add_segment(&mut arena, [0.0, 0.0], [0.0, 5.0], PolygonType::Clipping);
    let cur = add_segment(&mut arena, [1.0, 0.0], [3.0, 2.0], PolygonType::Subject);
    arena[prev].in_out = true;
    arena[prev].other_in_out = true;
    compute_fields(&mut arena, cur, Some(prev), Operation::Intersection);
    assert!(!arena[cur].in_out);
    assert!(!arena[cur].other_in_out);
}

#[test]
fn intersection_result_transition_is_plus_one_when_both_inside() {
    let mut arena = Vec::new();
    let e = add_segment(&mut arena, [0.0, 0.0], [1.0, 1.0], PolygonType::Subject);
    compute_fields(&mut arena, e, None, Operation::Intersection);
    assert_eq!(arena[e].result_transition, 0);
}

#[test]
fn xor_normal_event_always_in_result_with_transition() {
    let mut arena = Vec::new();
    let e = add_segment(&mut arena, [0.0, 0.0], [1.0, 1.0], PolygonType::Subject);
    compute_fields(&mut arena, e, None, Operation::Xor);
    assert_ne!(arena[e].result_transition, 0);
}

#[test]
fn non_contributing_edge_never_in_result() {
    let mut arena = Vec::new();
    let e = add_segment(&mut arena, [0.0, 0.0], [1.0, 1.0], PolygonType::Subject);
    arena[e].edge_type = EdgeType::NonContributing;
    compute_fields(&mut arena, e, None, Operation::Union);
    assert_eq!(arena[e].result_transition, 0);
}

#[test]
fn same_transition_in_result_for_intersection_and_union_only() {
    for op in [Operation::Intersection, Operation::Union] {
        let mut arena = Vec::new();
        let e = add_segment(&mut arena, [0.0, 0.0], [1.0, 1.0], PolygonType::Subject);
        arena[e].edge_type = EdgeType::SameTransition;
        compute_fields(&mut arena, e, None, op);
        assert_ne!(arena[e].result_transition, 0, "{op:?} should include SameTransition");
    }
    for op in [Operation::Difference, Operation::Xor] {
        let mut arena = Vec::new();
        let e = add_segment(&mut arena, [0.0, 0.0], [1.0, 1.0], PolygonType::Subject);
        arena[e].edge_type = EdgeType::SameTransition;
        compute_fields(&mut arena, e, None, op);
        assert_eq!(arena[e].result_transition, 0, "{op:?} should exclude SameTransition");
    }
}

#[test]
fn different_transition_in_result_for_difference_only() {
    for op in [Operation::Intersection, Operation::Union, Operation::Xor] {
        let mut arena = Vec::new();
        let e = add_segment(&mut arena, [0.0, 0.0], [1.0, 1.0], PolygonType::Subject);
        arena[e].edge_type = EdgeType::DifferentTransition;
        compute_fields(&mut arena, e, None, op);
        assert_eq!(arena[e].result_transition, 0);
    }
    let mut arena = Vec::new();
    let e = add_segment(&mut arena, [0.0, 0.0], [1.0, 1.0], PolygonType::Subject);
    arena[e].edge_type = EdgeType::DifferentTransition;
    compute_fields(&mut arena, e, None, Operation::Difference);
    assert_ne!(arena[e].result_transition, 0);
}

#[test]
fn prev_in_result_chains_through_non_contributing_predecessor() {
    let mut arena = Vec::new();
    let ancestor = add_segment(&mut arena, [0.0, 0.0], [10.0, 0.0], PolygonType::Subject);
    let prev = add_segment(&mut arena, [1.0, 1.0], [9.0, 1.0], PolygonType::Subject);
    let cur = add_segment(&mut arena, [2.0, 2.0], [8.0, 2.0], PolygonType::Subject);
    arena[prev].edge_type = EdgeType::NonContributing;
    arena[prev].prev_in_result = Some(ancestor);
    compute_fields(&mut arena, cur, Some(prev), Operation::Union);
    assert_eq!(arena[cur].prev_in_result, Some(ancestor));
}

#[test]
fn prev_in_result_points_to_prev_when_prev_contributes() {
    let mut arena = Vec::new();
    let prev = add_segment(&mut arena, [0.0, 0.0], [5.0, 0.0], PolygonType::Subject);
    let cur = add_segment(&mut arena, [1.0, 1.0], [4.0, 1.0], PolygonType::Subject);
    arena[prev].edge_type = EdgeType::Normal;
    arena[prev].in_out = false;
    arena[prev].other_in_out = true;
    compute_fields(&mut arena, cur, Some(prev), Operation::Union);
    assert_eq!(arena[cur].prev_in_result, Some(prev));
}

#[test]
fn transition_direction_for_each_operation() {
    // no predecessor: outside the own polygon below, inside the other's
    // complement; a contributing event's transition says whether the area
    // above it is in the result
    let mut arena = Vec::new();
    let e = add_segment(&mut arena, [0.0, 0.0], [1.0, 1.0], PolygonType::Subject);
    compute_fields(&mut arena, e, None, Operation::Union);
    assert_eq!(arena[e].result_transition, 1);
    compute_fields(&mut arena, e, None, Operation::Xor);
    assert_eq!(arena[e].result_transition, 1);
    compute_fields(&mut arena, e, None, Operation::Difference);
    assert_eq!(arena[e].result_transition, 1);
    let c = add_segment(&mut arena, [0.0, 0.0], [1.0, 1.0], PolygonType::Clipping);
    compute_fields(&mut arena, c, None, Operation::Difference);
    assert_eq!(arena[c].result_transition, 0);
}
