//! Segment subdivision.
use polyops::divide_segment::divide_segment;
use polyops::edge_type::EdgeType;
use polyops::sweep_event::{PolygonType, SweepEvent};

fn p(x: f64, y: f64) -> [i32; 2] {
    [(x * 10.0).round() as i32, (y * 10.0).round() as i32]
}

fn add_segment(arena: &mut Vec<SweepEvent>, left_pt: [f64; 2], right_pt: [f64; 2], polygon_type: PolygonType) -> usize {
    let left_idx = arena.len();
    arena.push(SweepEvent::new(p(left_pt[0], left_pt[1]), true, polygon_type, EdgeType::Normal));
    let right_idx = arena.len();
    arena.push(SweepEvent::new(p(right_pt[0], right_pt[1]), false, polygon_type, EdgeType::Normal));
    arena[left_idx].other_event = Some(right_idx);
    arena[right_idx].other_event = Some(left_idx);
    left_idx
}

#[test]
fn dividing_two_segments_at_their_intersection_produces_six_events() {
    let mut arena = Vec::new();
    let se1 = add_segment(&mut arena, [0.0, 0.0], [5.0, 5.0], PolygonType::Subject);
    let se2 = add_segment(&mut arena, [0.0, 5.0], [5.0, 0.0], PolygonType::Clipping);
    assert_eq!(arena.len(), 4);
    let cross = p(2.5, 2.5);
    let (l1, r1) = divide_segment(&mut arena, se1, cross);
    let (l2, r2) = divide_segment(&mut arena, se2, cross);
    assert_eq!(arena.len(), 8);
    for idx in [l1, r1, l2, r2] {
        assert_eq!(arena[idx].point, cross);
    }
}

#[test]
fn divide_segment_patches_links_correctly() {
    let mut arena = Vec::new();
    let se = add_segment(&mut arena, [0.0, 0.0], [10.0, 10.0], PolygonType::Subject);
    let old_other = arena[se].other_event.unwrap();
    let (l, r) = divide_segment(&mut arena, se, p(3.0, 3.0));
    assert_eq!(arena[r].other_event, Some(se));
    assert_eq!(arena[l].other_event, Some(old_other));
    assert_eq!(arena[se].other_event, Some(r));
    assert_eq!(arena[old_other].other_event, Some(l));
}

#[test]
fn divide_segment_propagates_contour_id_and_polygon_type() {
    let mut arena = Vec::new();
    let se = add_segment(&mut arena, [0.0, 0.0], [4.0, 4.0], PolygonType::Clipping);
    arena[se].contour_id = Some(7);
    let (l, r) = divide_segment(&mut arena, se, p(2.0, 2.0));
    assert_eq!(arena[l].contour_id, Some(7));
    assert_eq!(arena[r].contour_id, Some(7));
    assert_eq!(arena[l].polygon_type, PolygonType::Clipping);
    assert_eq!(arena[r].polygon_type, PolygonType::Clipping);
}

#[test]
fn divided_events_are_left_right_at_split_point() {
    let mut arena = Vec::new();
    let se = add_segment(&mut arena, [0.0, 0.0], [10.0, 10.0], PolygonType::Subject);
    let (l, r) = divide_segment(&mut arena, se, p(3.0, 3.0));
    assert!(arena[l].left);
    assert!(!arena[r].left);
}

#[test]
fn split_past_the_peer_swaps_sides() {
    // a split point after the old right endpoint in event order: the new
    // left event and the old peer swap sides
    let mut arena = Vec::new();
    let se = add_segment(&mut arena, [0.0, 0.0], [1.0, 1.0], PolygonType::Subject);
    let other = arena[se].other_event.unwrap();
    let (l, r) = divide_segment(&mut arena, se, p(2.0, 2.0));
    assert!(!arena[l].left);
    assert!(arena[other].left);
    assert!(!arena[r].left);
}
