//! Contour stitching.
use polyops::connect_edges::connect_edges;
use polyops::edge_type::EdgeType;
use polyops::sweep_event::{PolygonType, SweepEvent};

#[test]
fn empty_input_returns_no_contours() {
    let mut arena: Vec<SweepEvent> = Vec::new();
    let contours = connect_edges(&mut arena, &vec![]);
    assert!(contours.is_empty());
}

#[test]
fn no_events_contribute_returns_no_contours() {
    let mut arena = Vec::new();
    for i in 0..4 {
        let pt = [i * 10, 0];
        let mut ev = SweepEvent::new(pt, true, PolygonType::Subject, EdgeType::Normal);
        ev.result_transition = 0;
        arena.push(ev);
    }
    let contours = connect_edges(&mut arena, &vec![]);
    assert!(contours.is_empty());
}

/// Push the two events of a result segment from `a` to `b` (`a` the left
/// end) and return their indices.
fn push_result_segment(arena: &mut Vec<SweepEvent>, a: [i32; 2], b: [i32; 2]) -> (usize, usize) {
    let l = arena.len();
    let mut left = SweepEvent::new(a, true, PolygonType::Subject, EdgeType::Normal);
    let mut right = SweepEvent::new(b, false, PolygonType::Subject, EdgeType::Normal);
    left.other_event = Some(l + 1);
    right.other_event = Some(l);
    left.result_transition = 1;
    arena.push(left);
    arena.push(right);
    (l, l + 1)
}

#[test]
fn triangle_of_result_segments_gives_one_closed_contour() {
    let mut arena = Vec::new();
    let (ab_l, ab_r) = push_result_segment(&mut arena, [0, 0], [10, 0]);
    let (ac_l, ac_r) = push_result_segment(&mut arena, [0, 0], [0, 10]);
    let (cb_l, cb_r) = push_result_segment(&mut arena, [0, 10], [10, 0]);
    let sorted = vec![ab_l, ac_l, ac_r, cb_l, ab_r, cb_r];
    let contours = connect_edges(&mut arena, &sorted);
    assert_eq!(contours.len(), 1);
    assert_eq!(contours[0].points, vec![[0, 0], [10, 0], [0, 10], [0, 0]]);
    assert!(contours[0].is_exterior());
    for &e in &sorted {
        assert_eq!(arena[e].output_contour_id, 0);
    }
}

#[test]
fn single_result_segment_gives_an_open_contour() {
    let mut arena = Vec::new();
    let (l, r) = push_result_segment(&mut arena, [0, 0], [10, 0]);
    let contours = connect_edges(&mut arena, &vec![l, r]);
    assert_eq!(contours.len(), 1);
    assert_eq!(contours[0].points, vec![[0, 0], [10, 0]]);
    assert_eq!(arena[l].output_contour_id, 0);
    assert_eq!(arena[r].output_contour_id, 0);
}
