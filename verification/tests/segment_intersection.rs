//! Exact segment intersection on the lattice.
use polyops::segment_intersection::{intersection, lex_less, SegmentIntersection};

#[test]
fn crossing_diagonals_meet_at_the_centre() {
    let r = intersection([0, 0], [4, 4], [0, 4], [4, 0], false);
    assert!(matches!(r, SegmentIntersection::Point([2, 2])));
}

#[test]
fn crossing_off_the_lattice_is_rounded() {
    // The lines meet at (1.5, 0.5).
    let r = intersection([0, 0], [3, 1], [0, 1], [3, 0], false);
    assert!(matches!(r, SegmentIntersection::Point([2, 1])));
}

#[test]
fn collinear_overlap_gives_its_two_ends() {
    let r = intersection([0, 0], [5, 0], [2, 0], [7, 0], false);
    assert!(matches!(r, SegmentIntersection::Overlap([2, 0], [5, 0])));
}

#[test]
fn shared_endpoint_counts_unless_excluded() {
    let r = intersection([0, 0], [2, 2], [2, 2], [4, 0], false);
    assert!(matches!(r, SegmentIntersection::Point([2, 2])));
    let r = intersection([0, 0], [2, 2], [2, 2], [4, 0], true);
    assert!(matches!(r, SegmentIntersection::NoIntersection));
}

#[test]
fn parallel_and_apart_do_not_meet() {
    let r = intersection([0, 0], [4, 0], [0, 1], [4, 1], false);
    assert!(matches!(r, SegmentIntersection::NoIntersection));
    let r = intersection([0, 0], [1, 1], [3, 0], [4, -5], false);
    assert!(matches!(r, SegmentIntersection::NoIntersection));
}

#[test]
fn lex_less_orders_by_x_then_y() {
    assert!(lex_less([0, 5], [1, 0]));
    assert!(lex_less([1, 0], [1, 2]));
    assert!(!lex_less([1, 2], [1, 2]));
    assert!(!lex_less([2, 0], [1, 9]));
}
