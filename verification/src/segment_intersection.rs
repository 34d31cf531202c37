//! Segment-segment intersection on the integer lattice.
//!
//! Parameters are computed exactly. Two segments that are not parallel
//! meet in at most one point; when that point lies strictly inside both,
//! it is rounded to the nearest lattice point, and the crossing is reported
//! only if the rounded point still lies, for each segment, at one of its
//! endpoints or strictly between them in lexicographic order and within
//! its bounding box. Parallel segments on one line report their overlap.
use crate::signed_area::lemma_product_bound;
use crate::sweep_event::lex_lt;
use crate::types::Position;
use vstd::prelude::*;

verus! {

/// Result of intersecting two segments.
#[derive(Debug, Clone, Copy)]
pub enum SegmentIntersection {
    NoIntersection,
    Point(Position),
    Overlap(Position, Position),
}

/// Cross product of two vectors.
pub open spec fn cross2(ax: int, ay: int, bx: int, by: int) -> int {
    ax * by - ay * bx
}

/// Dot product of two vectors.
pub open spec fn dot2(ax: int, ay: int, bx: int, by: int) -> int {
    ax * bx + ay * by
}

/// `n / k` rounded to the nearest integer, halves upwards (for `k > 0`).
pub open spec fn round_div(n: int, k: int) -> int {
    (2 * n + k) / (2 * k)
}

/// Whether `p` lies in the bounding box of `a` and `b`.
pub open spec fn in_bbox(p: Position, a: Position, b: Position) -> bool {
    &&& (a[0] <= p[0] <= b[0] || b[0] <= p[0] <= a[0])
    &&& (a[1] <= p[1] <= b[1] || b[1] <= p[1] <= a[1])
}

/// Whether `p` may stand for a point of the segment `(a, b)`: it is an
/// endpoint, or it lies strictly between the endpoints in lexicographic
/// order, and it lies in the segment's bounding box.
pub open spec fn on_segment_lattice(p: Position, a: Position, b: Position) -> bool {
    &&& in_bbox(p, a, b)
    &&& (p == a || p == b || (lex_lt(a, p) && lex_lt(p, b)) || (lex_lt(b, p) && lex_lt(p, a)))
}

/// The lattice point with coordinates `(x, y)`, if it may stand for a
/// point of both segments.
pub open spec fn crossing_fits(x: int, y: int, a1: Position, a2: Position, b1: Position, b2: Position) -> bool {
    exists|p: Position| p[0] == x && p[1] == y && on_segment_lattice(p, a1, a2) && on_segment_lattice(p, b1, b2)
}

/// The intersection of segments `(a1, a2)` and `(b1, b2)`. With
/// `no_endpoint_touch`, contacts at an endpoint only are not reported.
pub open spec fn seg_inter(a1: Position, a2: Position, b1: Position, b2: Position, no_endpoint_touch: bool) -> SegmentIntersection {
    let vax = a2[0] - a1[0];
    let vay = a2[1] - a1[1];
    let vbx = b2[0] - b1[0];
    let vby = b2[1] - b1[1];
    let ex = b1[0] - a1[0];
    let ey = b1[1] - a1[1];
    let kross = cross2(vax, vay, vbx, vby);
    if kross != 0 {
        // s = sn / k and t = tn / k are the parameters along a and b.
        let k = if kross > 0 { kross } else { -kross };
        let sn = if kross > 0 { cross2(ex, ey, vbx, vby) } else { -cross2(ex, ey, vbx, vby) };
        let tn = if kross > 0 { cross2(ex, ey, vax, vay) } else { -cross2(ex, ey, vax, vay) };
        if sn < 0 || sn > k || tn < 0 || tn > k {
            SegmentIntersection::NoIntersection
        } else if sn == 0 || sn == k {
            if no_endpoint_touch {
                SegmentIntersection::NoIntersection
            } else {
                SegmentIntersection::Point(if sn == 0 { a1 } else { a2 })
            }
        } else if tn == 0 || tn == k {
            if no_endpoint_touch {
                SegmentIntersection::NoIntersection
            } else {
                SegmentIntersection::Point(if tn == 0 { b1 } else { b2 })
            }
        } else {
            let px = a1[0] + round_div(sn * vax, k);
            let py = a1[1] + round_div(sn * vay, k);
            if crossing_fits(px, py, a1, a2, b1, b2) {
                SegmentIntersection::Point(
                    choose|p: Position| p[0] == px && p[1] == py && on_segment_lattice(p, a1, a2) && on_segment_lattice(p, b1, b2),
                )
            } else {
                SegmentIntersection::NoIntersection
            }
        }
    } else if cross2(ex, ey, vax, vay) != 0 {
        SegmentIntersection::NoIntersection
    } else {
        let len2 = dot2(vax, vay, vax, vay);
        // projections of b1 and b2 on a, scaled by len2
        let sa = dot2(vax, vay, ex, ey);
        let sb = dot2(vax, vay, b2[0] - a1[0], b2[1] - a1[1]);
        let smin = if sa <= sb { sa } else { sb };
        let smax = if sa <= sb { sb } else { sa };
        let pmin = if sa <= sb { b1 } else { b2 };
        let pmax = if sa <= sb { b2 } else { b1 };
        if len2 == 0 || !(smin <= len2 && smax >= 0) {
            SegmentIntersection::NoIntersection
        } else if smin == len2 {
            if no_endpoint_touch {
                SegmentIntersection::NoIntersection
            } else {
                SegmentIntersection::Point(a2)
            }
        } else if smax == 0 {
            if no_endpoint_touch {
                SegmentIntersection::NoIntersection
            } else {
                SegmentIntersection::Point(a1)
            }
        } else if no_endpoint_touch && smin == 0 && smax == len2 {
            SegmentIntersection::NoIntersection
        } else {
            SegmentIntersection::Overlap(
                if smin > 0 { pmin } else { a1 },
                if smax < len2 { pmax } else { a2 },
            )
        }
    }
}

/// Compute the intersection of the segments `(a1, a2)` and `(b1, b2)`.
pub fn intersection(a1: Position, a2: Position, b1: Position, b2: Position, no_endpoint_touch: bool) -> (r:
    SegmentIntersection)
    ensures
        r == seg_inter(a1, a2, b1, b2, no_endpoint_touch),
{
    let vax = a2[0] as i64 - a1[0] as i64;
    let vay = a2[1] as i64 - a1[1] as i64;
    let vbx = b2[0] as i64 - b1[0] as i64;
    let vby = b2[1] as i64 - b1[1] as i64;
    let ex = b1[0] as i64 - a1[0] as i64;
    let ey = b1[1] as i64 - a1[1] as i64;
    let kross = mul_diff(vax, vby, vay, vbx);
    if kross != 0 {
        let s_raw = mul_diff(ex, vby, ey, vbx);
        let t_raw = mul_diff(ex, vay, ey, vax);
        let k = if kross > 0 { kross } else { -kross };
        let sn = if kross > 0 { s_raw } else { -s_raw };
        let tn = if kross > 0 { t_raw } else { -t_raw };
        if sn < 0 || sn > k || tn < 0 || tn > k {
            return SegmentIntersection::NoIntersection;
        }
        if sn == 0 || sn == k {
            if no_endpoint_touch {
                return SegmentIntersection::NoIntersection;
            }
            return SegmentIntersection::Point(if sn == 0 { a1 } else { a2 });
        }
        if tn == 0 || tn == k {
            if no_endpoint_touch {
                return SegmentIntersection::NoIntersection;
            }
            return SegmentIntersection::Point(if tn == 0 { b1 } else { b2 });
        }
        let px = a1[0] as i64 + rounded_offset(sn, vax, k);
        let py = a1[1] as i64 + rounded_offset(sn, vay, k);
        proof {
            if !(i32::MIN as i64 <= px && px <= i32::MAX as i64 && i32::MIN as i64 <= py && py <= i32::MAX as i64) {
                assert(!crossing_fits(px as int, py as int, a1, a2, b1, b2));
            }
        }
        if i32::MIN as i64 <= px && px <= i32::MAX as i64 && i32::MIN as i64 <= py && py <= i32::MAX as i64 {
            let p: Position = [px as i32, py as i32];
            if lattice_on_segment(p, a1, a2) && lattice_on_segment(p, b1, b2) {
                proof {
                    let q = choose|q: Position| q[0] == px && q[1] == py && on_segment_lattice(q, a1, a2) && on_segment_lattice(q, b1, b2);
                    assert(crossing_fits(px as int, py as int, a1, a2, b1, b2));
                    crate::equals::lemma_position_eq(q, p);
                }
                return SegmentIntersection::Point(p);
            }
            proof {
                assert forall|q: Position|
                    q[0] == px && q[1] == py implies !(on_segment_lattice(q, a1, a2)
                        && on_segment_lattice(q, b1, b2)) by {
                    crate::equals::lemma_position_eq(q, p);
                }
                assert(!crossing_fits(px as int, py as int, a1, a2, b1, b2));
            }
        }
        return SegmentIntersection::NoIntersection;
    }
    if mul_diff(ex, vay, ey, vax) != 0 {
        return SegmentIntersection::NoIntersection;
    }
    let len2 = mul_sum(vax, vax, vay, vay);
    let sa = mul_sum(vax, ex, vay, ey);
    let sb = mul_sum(vax, b2[0] as i64 - a1[0] as i64, vay, b2[1] as i64 - a1[1] as i64);
    let smin = if sa <= sb { sa } else { sb };
    let smax = if sa <= sb { sb } else { sa };
    let pmin = if sa <= sb { b1 } else { b2 };
    let pmax = if sa <= sb { b2 } else { b1 };
    if len2 == 0 || !(smin <= len2 && smax >= 0) {
        return SegmentIntersection::NoIntersection;
    }
    if smin == len2 {
        return if no_endpoint_touch {
            SegmentIntersection::NoIntersection
        } else {
            SegmentIntersection::Point(a2)
        };
    }
    if smax == 0 {
        return if no_endpoint_touch {
            SegmentIntersection::NoIntersection
        } else {
            SegmentIntersection::Point(a1)
        };
    }
    if no_endpoint_touch && smin == 0 && smax == len2 {
        return SegmentIntersection::NoIntersection;
    }
    SegmentIntersection::Overlap(
        if smin > 0 { pmin } else { a1 },
        if smax < len2 { pmax } else { a2 },
    )
}

/// `a * b - c * d` for factors below `2^32` in magnitude, exactly.
fn mul_diff(a: i64, b: i64, c: i64, d: i64) -> (r: i128)
    requires
        -0x1_0000_0000 < a < 0x1_0000_0000,
        -0x1_0000_0000 < b < 0x1_0000_0000,
        -0x1_0000_0000 < c < 0x1_0000_0000,
        -0x1_0000_0000 < d < 0x1_0000_0000,
    ensures
        r == a * b - c * d,
        -0x2_0000_0000_0000_0000 < r < 0x2_0000_0000_0000_0000,
{
    proof {
        lemma_product_bound(a as int, b as int);
        lemma_product_bound(c as int, d as int);
    }
    (a as i128) * (b as i128) - (c as i128) * (d as i128)
}

/// `a * b + c * d` for factors below `2^32` in magnitude, exactly.
fn mul_sum(a: i64, b: i64, c: i64, d: i64) -> (r: i128)
    requires
        -0x1_0000_0000 < a < 0x1_0000_0000,
        -0x1_0000_0000 < b < 0x1_0000_0000,
        -0x1_0000_0000 < c < 0x1_0000_0000,
        -0x1_0000_0000 < d < 0x1_0000_0000,
    ensures
        r == a * b + c * d,
        -0x2_0000_0000_0000_0000 < r < 0x2_0000_0000_0000_0000,
{
    proof {
        lemma_product_bound(a as int, b as int);
        lemma_product_bound(c as int, d as int);
    }
    (a as i128) * (b as i128) + (c as i128) * (d as i128)
}

/// `round_div(sn * v, k)` for a parameter `0 < sn < k`: the rounded
/// offset of the crossing along one axis, which lies between `0` and `v`.
fn rounded_offset(sn: i128, v: i64, k: i128) -> (r: i64)
    requires
        0 < sn < k,
        k < 0x2_0000_0000_0000_0000,
        -0x1_0000_0000 < v < 0x1_0000_0000,
    ensures
        r == round_div(sn * v, k as int),
        v >= 0 ==> 0 <= r <= v,
        v < 0 ==> v <= r <= 0,
{
    proof {
        lemma_round_div_bounds(sn as int, v as int, k as int);
    }
    let n = sn * (v as i128);
    let num = 2 * n + k;
    let den = 2 * k;
    if num >= 0 {
        let q = (num as u128 / den as u128) as i128;
        proof {
            assert(q == num / den);
        }
        q as i64
    } else {
        let m = (-num) as u128;
        let d = den as u128;
        let c = ((m + d - 1) / d) as i128;
        proof {
            lemma_floor_negative(num as int, den as int);
        }
        (-c) as i64
    }
}

/// Bounds of the rounded offset `round_div(sn * v, k)` for `0 < sn < k`.
proof fn lemma_round_div_bounds(sn: int, v: int, k: int)
    requires
        0 < sn < k,
        k < 0x2_0000_0000_0000_0000,
        -0x1_0000_0000 < v < 0x1_0000_0000,
    ensures
        v >= 0 ==> 0 <= round_div(sn * v, k) <= v,
        v < 0 ==> v <= round_div(sn * v, k) <= 0,
        -0x8_0000_0000_0000_0000_0000_0000 < sn * v < 0x8_0000_0000_0000_0000_0000_0000,
{
    assert(-0x8_0000_0000_0000_0000_0000_0000 < sn * v < 0x8_0000_0000_0000_0000_0000_0000)
        by (nonlinear_arith)
        requires
            0 < sn < k,
            k < 0x2_0000_0000_0000_0000,
            -0x1_0000_0000 < v < 0x1_0000_0000,
    ;
    let n = sn * v;
    if v >= 0 {
        assert(0 <= n <= k * v) by (nonlinear_arith)
            requires
                0 < sn < k,
                v >= 0,
                n == sn * v,
        ;
        lemma_round_div_range(n, k, 0, v);
    } else {
        assert(k * v <= n <= 0) by (nonlinear_arith)
            requires
                0 < sn < k,
                v < 0,
                n == sn * v,
        ;
        lemma_round_div_range(n, k, v, 0);
    }
}

/// If `lo <= n / k <= hi` then the rounded quotient lies in `[lo, hi]`.
proof fn lemma_round_div_range(n: int, k: int, lo: int, hi: int)
    requires
        k > 0,
        k * lo <= n <= k * hi,
    ensures
        lo <= round_div(n, k) <= hi,
{
    let q = round_div(n, k);
    let num = 2 * n + k;
    let den = 2 * k;
    assert(num == den * q + num % den) by {
        vstd::arithmetic::div_mod::lemma_fundamental_div_mod(num, den);
    }
    assert(0 <= num % den < den) by {
        vstd::arithmetic::div_mod::lemma_mod_bound(num, den);
    }
    assert(lo <= q <= hi) by (nonlinear_arith)
        requires
            k > 0,
            k * lo <= n <= k * hi,
            num == 2 * n + k,
            den == 2 * k,
            num == den * q + num % den,
            0 <= num % den < den,
    ;
}

/// Floor division of a negative numerator by ceiling division of its
/// magnitude.
proof fn lemma_floor_negative(num: int, den: int)
    requires
        num < 0,
        den > 0,
    ensures
        num / den == -((-num + den - 1) / den),
{
    let m = -num;
    let c = (m + den - 1) / den;
    let q = num / den;
    vstd::arithmetic::div_mod::lemma_fundamental_div_mod(num, den);
    vstd::arithmetic::div_mod::lemma_mod_bound(num, den);
    vstd::arithmetic::div_mod::lemma_fundamental_div_mod(m + den - 1, den);
    vstd::arithmetic::div_mod::lemma_mod_bound(m + den - 1, den);
    assert(q == -c) by (nonlinear_arith)
        requires
            num < 0,
            den > 0,
            m == -num,
            num == den * q + num % den,
            0 <= num % den < den,
            m + den - 1 == den * c + (m + den - 1) % den,
            0 <= (m + den - 1) % den < den,
    ;
}

/// Whether `p` may stand for a point of the segment `(a, b)`; see
/// [`on_segment_lattice`].
fn lattice_on_segment(p: Position, a: Position, b: Position) -> (r: bool)
    ensures
        r == on_segment_lattice(p, a, b),
{
    proof {
        crate::equals::lemma_position_eq(p, a);
        crate::equals::lemma_position_eq(p, b);
    }
    let in_x = (a[0] <= p[0] && p[0] <= b[0]) || (b[0] <= p[0] && p[0] <= a[0]);
    let in_y = (a[1] <= p[1] && p[1] <= b[1]) || (b[1] <= p[1] && p[1] <= a[1]);
    let is_a = p[0] == a[0] && p[1] == a[1];
    let is_b = p[0] == b[0] && p[1] == b[1];
    in_x && in_y && (is_a || is_b || (lex_less(a, p) && lex_less(p, b)) || (lex_less(b, p) && lex_less(p, a)))
}

/// Strict lexicographic comparison of two positions.
pub fn lex_less(a: Position, b: Position) -> (r: bool)
    ensures
        r == lex_lt(a, b),
{
    a[0] < b[0] || (a[0] == b[0] && a[1] < b[1])
}

} // verus!
