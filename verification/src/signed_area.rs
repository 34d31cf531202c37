//! Orientation of three lattice points.
use crate::types::Position;
use vstd::prelude::*;

verus! {

/// The orientation determinant of the triangle `(p0, p1, p2)`: twice its
/// signed area, positive for a counter-clockwise turn.
pub open spec fn orient(p0: Position, p1: Position, p2: Position) -> int {
    (p0[0] - p2[0]) * (p1[1] - p2[1]) - (p0[1] - p2[1]) * (p1[0] - p2[0])
}

/// The sign of an integer: `1`, `-1` or `0`.
pub open spec fn sign(v: int) -> int {
    if v > 0 {
        1
    } else if v < 0 {
        -1
    } else {
        0
    }
}

/// Sign of the signed area of the triangle `(p0, p1, p2)`, computed
/// exactly: `1` counter-clockwise, `-1` clockwise, `0` collinear.
pub fn signed_area(p0: Position, p1: Position, p2: Position) -> (r: i32)
    ensures
        r == sign(orient(p0, p1, p2)),
{
    let res = orient_exact(p0, p1, p2);
    if res > 0 {
        1
    } else if res < 0 {
        -1
    } else {
        0
    }
}

/// The orientation determinant, evaluated without overflow in `i128`.
pub fn orient_exact(p0: Position, p1: Position, p2: Position) -> (r: i128)
    ensures
        r == orient(p0, p1, p2),
{
    let ax = p0[0] as i64 - p2[0] as i64;
    let ay = p0[1] as i64 - p2[1] as i64;
    let bx = p1[0] as i64 - p2[0] as i64;
    let by = p1[1] as i64 - p2[1] as i64;
    cross_exact(ax, ay, bx, by)
}

/// `ax * by - ay * bx` for components that are differences of two `i32`.
pub fn cross_exact(ax: i64, ay: i64, bx: i64, by: i64) -> (r: i128)
    requires
        -0x1_0000_0000 < ax < 0x1_0000_0000,
        -0x1_0000_0000 < ay < 0x1_0000_0000,
        -0x1_0000_0000 < bx < 0x1_0000_0000,
        -0x1_0000_0000 < by < 0x1_0000_0000,
    ensures
        r == ax * by - ay * bx,
{
    proof {
        lemma_product_bound(ax as int, by as int);
        lemma_product_bound(ay as int, bx as int);
    }
    let m1 = (ax as i128) * (by as i128);
    let m2 = (ay as i128) * (bx as i128);
    m1 - m2
}

/// Products of two numbers below `2^32` in magnitude stay below `2^64`.
pub proof fn lemma_product_bound(a: int, b: int)
    requires
        -0x1_0000_0000 < a < 0x1_0000_0000,
        -0x1_0000_0000 < b < 0x1_0000_0000,
    ensures
        -0x1_0000_0000_0000_0000 < a * b < 0x1_0000_0000_0000_0000,
{
    assert(-0x1_0000_0000_0000_0000 < a * b < 0x1_0000_0000_0000_0000) by (nonlinear_arith)
        requires
            -0x1_0000_0000 < a < 0x1_0000_0000,
            -0x1_0000_0000 < b < 0x1_0000_0000,
    ;
}

/// Swapping the first two points negates the orientation.
pub proof fn lemma_orient_swap(p0: Position, p1: Position, p2: Position)
    ensures
        orient(p1, p0, p2) == -orient(p0, p1, p2),
        sign(orient(p1, p0, p2)) == -sign(orient(p0, p1, p2)),
{
    assert(orient(p1, p0, p2) == -orient(p0, p1, p2)) by (nonlinear_arith);
}

/// Rotating the three points keeps the orientation.
pub proof fn lemma_orient_rotate(p0: Position, p1: Position, p2: Position)
    ensures
        orient(p1, p2, p0) == orient(p0, p1, p2),
{
    assert(orient(p1, p2, p0) == orient(p0, p1, p2)) by (nonlinear_arith);
}

} // verus!
