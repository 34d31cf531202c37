//! Point equality.
use polyops::equals::equals;

fn p(x: f64, y: f64) -> [i32; 2] {
    [(x * 10.0).round() as i32, (y * 10.0).round() as i32]
}

#[test]
fn identical_points_equal() {
    assert!(equals(p(1.0, 2.0), p(1.0, 2.0)));
}

#[test]
fn different_x_unequal() {
    assert!(!equals(p(1.0, 2.0), p(1.1, 2.0)));
}

#[test]
fn different_y_unequal() {
    assert!(!equals(p(1.0, 2.0), p(1.0, 2.1)));
}

#[test]
fn zero_zero_equals_zero_zero() {
    assert!(equals(p(0.0, 0.0), p(0.0, 0.0)));
}

#[test]
fn positive_and_negative_zero_are_equal() {
    assert!(equals(p(0.0, 1.0), p(-0.0, 1.0)));
    assert!(equals(p(1.0, 0.0), p(1.0, -0.0)));
}

#[test]
fn extreme_coordinates_compare_exactly() {
    assert!(equals([i32::MIN, i32::MAX], [i32::MIN, i32::MAX]));
    assert!(!equals([i32::MIN, i32::MAX], [i32::MIN + 1, i32::MAX]));
}
