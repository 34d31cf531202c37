//! Orientation of three lattice points.
use polyops::signed_area::signed_area;

fn p(x: f64, y: f64) -> [i32; 2] {
    [(x * 10.0).round() as i32, (y * 10.0).round() as i32]
}

#[test]
fn negative_area() {
    assert_eq!(signed_area(p(0.0, 0.0), p(0.0, 1.0), p(1.0, 1.0)), -1);
}

#[test]
fn positive_area() {
    assert_eq!(signed_area(p(0.0, 1.0), p(0.0, 0.0), p(1.0, 0.0)), 1);
}

#[test]
fn collinear_zero_area() {
    assert_eq!(signed_area(p(0.0, 0.0), p(1.0, 1.0), p(2.0, 2.0)), 0);
}

#[test]
fn point_on_segment_collinear() {
    assert_eq!(signed_area(p(-1.0, 0.0), p(2.0, 3.0), p(0.0, 1.0)), 0);
    assert_eq!(signed_area(p(2.0, 3.0), p(-1.0, 0.0), p(0.0, 1.0)), 0);
}

#[test]
fn near_collinear_uses_robust_predicate() {
    let p0 = p(0.5, 0.5);
    let p1 = p(12.0, 12.0);
    let p2 = p(24.0, 24.0);
    assert_eq!(signed_area(p0, p1, p2), 0);
}

#[test]
fn signed_area_is_antisymmetric_in_p0_p1_swap() {
    let p0 = p(1.0, 2.0);
    let p1 = p(3.0, 7.0);
    let p2 = p(5.0, 1.0);
    let a = signed_area(p0, p1, p2);
    let b = signed_area(p1, p0, p2);
    assert_ne!(a, 0);
    assert_eq!(a, -b);
}

#[test]
fn extreme_coordinates_do_not_overflow() {
    // the determinant of these points exceeds i64; computed exactly
    let a = [i32::MIN, i32::MIN];
    let b = [i32::MAX, i32::MIN];
    let c = [i32::MAX, i32::MAX];
    assert_eq!(signed_area(a, b, c), 1);
    assert_eq!(signed_area(b, a, c), -1);
    assert_eq!(signed_area(a, c, [0, 0]), 0);
}

#[test]
fn rotation_keeps_the_sign() {
    let p0 = p(1.0, 2.0);
    let p1 = p(3.0, 7.0);
    let p2 = p(5.0, 1.0);
    assert_eq!(signed_area(p0, p1, p2), signed_area(p1, p2, p0));
    assert_eq!(signed_area(p0, p1, p2), signed_area(p2, p0, p1));
}
