//! Sweep events: construction and per-segment predicates.
use polyops::edge_type::EdgeType;
use polyops::sweep_event::{PolygonType, SweepEvent};

fn p(x: f64, y: f64) -> [i32; 2] {
    [(x * 10.0).round() as i32, (y * 10.0).round() as i32]
}

#[test]
fn new_event_initializes_to_upstream_defaults() {
    let e = SweepEvent::new(p(3.0, 4.0), true, PolygonType::Subject, EdgeType::Normal);
    assert_eq!(e.point, p(3.0, 4.0));
    assert!(e.left);
    assert_eq!(e.other_event, None);
    assert!(matches!(e.polygon_type, PolygonType::Subject));
    assert!(!e.in_out);
    assert!(!e.other_in_out);
    assert_eq!(e.prev_in_result, None);
    assert_eq!(e.result_transition, 0);
    assert_eq!(e.other_pos, -1);
    assert_eq!(e.output_contour_id, -1);
    assert!(e.is_exterior_ring);
    assert_eq!(e.contour_id, None);
}

#[test]
fn is_below_when_query_is_above_segment() {
    let e = SweepEvent::new(p(0.0, 0.0), true, PolygonType::Subject, EdgeType::Normal);
    assert!(e.is_below(p(4.0, 4.0), p(1.0, 3.0)));
    assert!(!e.is_above(p(4.0, 4.0), p(1.0, 3.0)));
}

#[test]
fn is_below_false_when_query_is_below_segment() {
    let e = SweepEvent::new(p(0.0, 0.0), true, PolygonType::Subject, EdgeType::Normal);
    assert!(!e.is_below(p(4.0, 4.0), p(3.0, 1.0)));
    assert!(e.is_above(p(4.0, 4.0), p(3.0, 1.0)));
}

#[test]
fn is_below_flips_when_event_is_right_endpoint() {
    let e = SweepEvent::new(p(4.0, 4.0), false, PolygonType::Subject, EdgeType::Normal);
    assert!(e.is_below(p(0.0, 0.0), p(1.0, 3.0)));
    assert!(!e.is_below(p(0.0, 0.0), p(3.0, 1.0)));
}

#[test]
fn is_vertical() {
    let e = SweepEvent::new(p(5.0, 0.0), true, PolygonType::Subject, EdgeType::Normal);
    assert!(e.is_vertical(p(5.0, 10.0)));
    assert!(!e.is_vertical(p(5.1, 10.0)));
}

#[test]
fn in_result_tracks_result_transition() {
    let mut e = SweepEvent::new(p(0.0, 0.0), true, PolygonType::Subject, EdgeType::Normal);
    assert!(!e.in_result());
    e.result_transition = 1;
    assert!(e.in_result());
    e.result_transition = -1;
    assert!(e.in_result());
    e.result_transition = 0;
    assert!(!e.in_result());
}

#[test]
fn query_point_on_the_segment_is_neither_below() {
    let e = SweepEvent::new(p(0.0, 0.0), true, PolygonType::Subject, EdgeType::Normal);
    assert!(!e.is_below(p(4.0, 4.0), p(2.0, 2.0)));
    assert!(e.is_above(p(4.0, 4.0), p(2.0, 2.0)));
}

#[test]
fn subject_flag_follows_polygon_type() {
    let s = SweepEvent::new(p(0.0, 0.0), true, PolygonType::Subject, EdgeType::Normal);
    let c = SweepEvent::new(p(0.0, 0.0), true, PolygonType::Clipping, EdgeType::Normal);
    assert!(s.is_subject());
    assert!(!c.is_subject());
}
