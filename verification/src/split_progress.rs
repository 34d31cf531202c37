//! Why the sweep terminates: every split that an intersection test of two
//! sweep-line neighbours performs lies strictly inside the segment it
//! splits, so the segment weight of the arena drops, and well-formedness
//! is kept.
use crate::compare_events::lemma_distinct_points_order;
use crate::divide_segment::{divided, lemma_divided_len, lemma_divided_linked, lemma_divided_shape, lemma_divided_wf, links_ok, splits_inside};
use crate::possible_intersection::{apart_outcome, intersection_outcome, marked_shared_left, overlap_order, overlap_outcome};
use crate::equals::lemma_position_eq;
use crate::segment_intersection::{cross2, dot2, in_bbox, seg_inter, SegmentIntersection};
use crate::segment_weight::{arena_weight, lemma_weight_divided, lemma_weight_same_links};
use crate::sweep_event::{ev, has_peer, lemma_wf_linked, lex_lt, output_ready, peer, peer_point, PolygonType, wf_arena, wf_event, SweepEvent};
use crate::types::Position;
use vstd::prelude::*;

verus! {

/// `p` is an endpoint of the segment `(a, b)`, or lies strictly inside it:
/// lexicographically between the endpoints and within their bounding box.
pub open spec fn split_ok(p: Position, a: Position, b: Position) -> bool {
    p == a || p == b || (lex_lt(a, p) && lex_lt(p, b) && in_bbox(p, a, b))
}

/// `q` lies on the line through `a` with direction `(vx, vy)`.
pub open spec fn on_line(a: Position, vx: int, vy: int, q: Position) -> bool {
    cross2(q[0] - a[0], q[1] - a[1], vx, vy) == 0
}

/// The projection of `q - a` on the direction `(vx, vy)`, scaled by the
/// direction's length.
pub open spec fn proj(a: Position, vx: int, vy: int, q: Position) -> int {
    dot2(vx, vy, q[0] - a[0], q[1] - a[1])
}

/// For `0 < m < k`, `u = (m / k) * d` lies strictly between `0` and `d`.
proof fn lemma_scaled_between(k: int, m: int, d: int, u: int)
    requires
        k > 0,
        0 < m < k,
        k * u == m * d,
    ensures
        d > 0 ==> 0 < u < d,
        d == 0 ==> u == 0,
        d < 0 ==> d < u < 0,
{
    assert(d > 0 ==> 0 < u) by (nonlinear_arith)
        requires
            k > 0,
            0 < m < k,
            k * u == m * d,
    ;
    assert(d > 0 ==> u < d) by (nonlinear_arith)
        requires
            k > 0,
            0 < m < k,
            k * u == m * d,
    ;
    assert(d == 0 ==> u == 0) by (nonlinear_arith)
        requires
            k > 0,
            k * u == m * d,
    ;
    assert(d < 0 ==> u < 0) by (nonlinear_arith)
        requires
            k > 0,
            0 < m < k,
            k * u == m * d,
    ;
    assert(d < 0 ==> d < u) by (nonlinear_arith)
        requires
            k > 0,
            0 < m < k,
            k * u == m * d,
    ;
}

/// A point at parameter `m / k` strictly inside `(0, 1)` along `a -> b`
/// lies strictly inside the segment.
proof fn lemma_param_inside(a: Position, b: Position, q: Position, k: int, m: int)
    requires
        lex_lt(a, b),
        k > 0,
        0 < m < k,
        k * (q[0] - a[0]) == m * (b[0] - a[0]),
        k * (q[1] - a[1]) == m * (b[1] - a[1]),
    ensures
        lex_lt(a, q),
        lex_lt(q, b),
        in_bbox(q, a, b),
{
    lemma_scaled_between(k, m, b[0] - a[0], q[0] - a[0]);
    lemma_scaled_between(k, m, b[1] - a[1], q[1] - a[1]);
}

/// `k * u == 0` and `k * u == k * d` pin `u` down for `k > 0`.
proof fn lemma_cancel(k: int, u: int, d: int)
    requires
        k > 0,
    ensures
        k * u == 0 ==> u == 0,
        k * u == k * d ==> u == d,
{
    assert(k * u == 0 ==> u == 0) by (nonlinear_arith)
        requires
            k > 0,
    ;
    assert(k * u == k * d ==> u == d) by (nonlinear_arith)
        requires
            k > 0,
    ;
}

/// Distributivity of multiplication over a difference, on both sides.
proof fn lemma_dist_sub(x: int, y: int, z: int)
    ensures
        x * (y - z) == x * y - x * z,
        (y - z) * x == y * x - z * x,
{
    vstd::arithmetic::mul::lemma_mul_is_distributive_sub(x, y, z);
    vstd::arithmetic::mul::lemma_mul_is_distributive_sub_other_way(x, y, z);
}

/// Products of three factors do not depend on grouping or order.
proof fn lemma_mul3(a: int, b: int, c: int)
    ensures
        (a * b) * c == (c * b) * a,
        (a * b) * c == (a * c) * b,
        (a * b) * c == (b * a) * c,
        a * (b * c) == (a * b) * c,
{
    assert((a * b) * c == (c * b) * a) by (nonlinear_arith);
    assert((a * b) * c == (a * c) * b) by (nonlinear_arith);
    assert((a * b) * c == (b * a) * c) by (nonlinear_arith);
    assert(a * (b * c) == (a * b) * c) by (nonlinear_arith);
}

/// The offset between the two start points, written in the two segment
/// directions: `kross * e == cross(e, vb) * va - cross(e, va) * vb`.
proof fn lemma_cross_identity(vax: int, vay: int, vbx: int, vby: int, ex: int, ey: int)
    ensures
        cross2(vax, vay, vbx, vby) * ex == cross2(ex, ey, vbx, vby) * vax - cross2(ex, ey, vax, vay)
            * vbx,
        cross2(vax, vay, vbx, vby) * ey == cross2(ex, ey, vbx, vby) * vay - cross2(ex, ey, vax, vay)
            * vby,
{
    lemma_dist_sub(ex, vax * vby, vay * vbx);
    lemma_dist_sub(vax, ex * vby, ey * vbx);
    lemma_dist_sub(vbx, ex * vay, ey * vax);
    lemma_mul3(vax, vby, ex);
    lemma_mul3(vay, vbx, ex);
    lemma_mul3(ey, vbx, vax);
    lemma_mul3(ex, vay, vbx);
    lemma_mul3(ey, vax, vbx);
    lemma_mul3(ex, vby, vax);
    lemma_dist_sub(ey, vax * vby, vay * vbx);
    lemma_dist_sub(vay, ex * vby, ey * vbx);
    lemma_dist_sub(vby, ex * vay, ey * vax);
    lemma_mul3(vax, vby, ey);
    lemma_mul3(vay, vbx, ey);
    lemma_mul3(ex, vby, vay);
    lemma_mul3(ey, vbx, vay);
    lemma_mul3(ex, vay, vby);
    lemma_mul3(ey, vax, vby);
}

/// A vector both parallel and perpendicular to a non-zero vector is zero.
proof fn lemma_zero_perp(dx: int, dy: int, vx: int, vy: int)
    requires
        dx * vy - dy * vx == 0,
        vx * dx + vy * dy == 0,
        vx * vx + vy * vy > 0,
    ensures
        dx == 0,
        dy == 0,
{
    let l = vx * vx + vy * vy;
    vstd::arithmetic::mul::lemma_mul_is_distributive_add(dx, vx * vx, vy * vy);
    vstd::arithmetic::mul::lemma_mul_is_distributive_add(dy, vx * vx, vy * vy);
    vstd::arithmetic::mul::lemma_mul_is_distributive_add(vx, vx * dx, vy * dy);
    vstd::arithmetic::mul::lemma_mul_is_distributive_add(vy, vx * dx, vy * dy);
    lemma_dist_sub(vy, dx * vy, dy * vx);
    lemma_dist_sub(vx, dx * vy, dy * vx);
    lemma_mul3(dx, vx, vx);
    lemma_mul3(vx, vx, dx);
    lemma_mul3(vx, vy, dy);
    lemma_mul3(vy, dx, vy);
    lemma_mul3(dx, vy, vy);
    lemma_mul3(vy, dy, vx);
    lemma_mul3(dy, vx, vx);
    lemma_mul3(dy, vy, vy);
    lemma_mul3(vy, vx, dx);
    lemma_mul3(vy, vy, dy);
    lemma_mul3(vx, dx, vy);
    lemma_mul3(vx, dy, vx);
    assert(vx * (vx * dx + vy * dy) + vy * (dx * vy - dy * vx) == 0);
    assert(vy * (vx * dx + vy * dy) - vx * (dx * vy - dy * vx) == 0);
    assert(dx * l == 0);
    assert(dy * l == 0);
    lemma_cancel(l, dx, 0);
    lemma_cancel(l, dy, 0);
}

/// Coordinates of a point on a line, in terms of its projection.
proof fn lemma_line_coord(a: Position, vx: int, vy: int, q: Position)
    requires
        on_line(a, vx, vy, q),
    ensures
        (q[0] - a[0]) * (vx * vx + vy * vy) == vx * proj(a, vx, vy, q),
        (q[1] - a[1]) * (vx * vx + vy * vy) == vy * proj(a, vx, vy, q),
{
    let w0 = q[0] - a[0];
    let w1 = q[1] - a[1];
    assert(w0 * (vx * vx + vy * vy) == vx * (vx * w0 + vy * w1)) by (nonlinear_arith)
        requires
            w0 * vy - w1 * vx == 0,
    ;
    assert(w1 * (vx * vx + vy * vy) == vy * (vx * w0 + vy * w1)) by (nonlinear_arith)
        requires
            w0 * vy - w1 * vx == 0,
    ;
}

/// The coordinate differences of two points on a line, in terms of the
/// difference of their projections.
proof fn lemma_line_diff(a: Position, vx: int, vy: int, x: Position, y: Position)
    requires
        on_line(a, vx, vy, x),
        on_line(a, vx, vy, y),
    ensures
        (y[0] - x[0]) * (vx * vx + vy * vy) == vx * (proj(a, vx, vy, y) - proj(a, vx, vy, x)),
        (y[1] - x[1]) * (vx * vx + vy * vy) == vy * (proj(a, vx, vy, y) - proj(a, vx, vy, x)),
{
    lemma_line_coord(a, vx, vy, x);
    lemma_line_coord(a, vx, vy, y);
    let l = vx * vx + vy * vy;
    assert((y[0] - x[0]) * l == (y[0] - a[0]) * l - (x[0] - a[0]) * l) by (nonlinear_arith);
    assert((y[1] - x[1]) * l == (y[1] - a[1]) * l - (x[1] - a[1]) * l) by (nonlinear_arith);
    assert(vx * (proj(a, vx, vy, y) - proj(a, vx, vy, x)) == vx * proj(a, vx, vy, y) - vx * proj(
        a,
        vx,
        vy,
        x,
    )) by (nonlinear_arith);
    assert(vy * (proj(a, vx, vy, y) - proj(a, vx, vy, x)) == vy * proj(a, vx, vy, y) - vy * proj(
        a,
        vx,
        vy,
        x,
    )) by (nonlinear_arith);
}

/// On a line whose direction points lexicographically forward, the
/// lexicographic order of its points is the order of their projections.
pub proof fn lemma_line_order(a: Position, vx: int, vy: int, x: Position, y: Position)
    requires
        vx > 0 || (vx == 0 && vy > 0),
        on_line(a, vx, vy, x),
        on_line(a, vx, vy, y),
    ensures
        lex_lt(x, y) <==> proj(a, vx, vy, x) < proj(a, vx, vy, y),
        (x == y) <==> proj(a, vx, vy, x) == proj(a, vx, vy, y),
{
    lemma_line_diff(a, vx, vy, x, y);
    lemma_position_eq(x, y);
    let l = vx * vx + vy * vy;
    let d = proj(a, vx, vy, y) - proj(a, vx, vy, x);
    let u0 = y[0] - x[0];
    let u1 = y[1] - x[1];
    assert(l > 0) by (nonlinear_arith)
        requires
            vx > 0 || (vx == 0 && vy > 0),
            l == vx * vx + vy * vy,
    ;
    if vx > 0 {
        assert(u0 > 0 <==> d > 0) by (nonlinear_arith)
            requires
                u0 * l == vx * d,
                vx > 0,
                l > 0,
        ;
        assert(u0 < 0 <==> d < 0) by (nonlinear_arith)
            requires
                u0 * l == vx * d,
                vx > 0,
                l > 0,
        ;
        lemma_cancel(l, u1, 0);
        assert(d == 0 ==> u1 * l == 0) by (nonlinear_arith)
            requires
                u1 * l == vy * d,
        ;
    } else {
        lemma_cancel(l, u0, 0);
        assert(u1 > 0 <==> d > 0) by (nonlinear_arith)
            requires
                u1 * l == vy * d,
                vy > 0,
                l > 0,
        ;
        assert(u1 < 0 <==> d < 0) by (nonlinear_arith)
            requires
                u1 * l == vy * d,
                vy > 0,
                l > 0,
        ;
    }
}

/// Of three points of a line in projection order, the middle one lies in
/// the bounding box of the other two.
pub proof fn lemma_line_between(a: Position, vx: int, vy: int, x: Position, y: Position, z: Position)
    requires
        vx * vx + vy * vy > 0,
        on_line(a, vx, vy, x),
        on_line(a, vx, vy, y),
        on_line(a, vx, vy, z),
        proj(a, vx, vy, x) < proj(a, vx, vy, y) < proj(a, vx, vy, z),
    ensures
        in_bbox(y, x, z),
{
    lemma_line_diff(a, vx, vy, x, y);
    lemma_line_diff(a, vx, vy, y, z);
    let l = vx * vx + vy * vy;
    let d1 = proj(a, vx, vy, y) - proj(a, vx, vy, x);
    let d2 = proj(a, vx, vy, z) - proj(a, vx, vy, y);
    assert(forall|u: int, v: int, d: int|
        #![trigger u * l, v * d]
        u * l == v * d && d > 0 ==> (v >= 0 ==> u >= 0) && (v < 0 ==> u < 0)) by {
        assert forall|u: int, v: int, d: int|
            #![trigger u * l, v * d]
            u * l == v * d && d > 0 implies (v >= 0 ==> u >= 0) && (v < 0 ==> u < 0) by {
            assert((v >= 0 ==> u >= 0) && (v < 0 ==> u < 0)) by (nonlinear_arith)
                requires
                    u * l == v * d,
                    d > 0,
                    l > 0,
            ;
        }
    }
    assert((y[0] - x[0]) * l == vx * d1);
    assert((z[0] - y[0]) * l == vx * d2);
    assert((y[1] - x[1]) * l == vy * d1);
    assert((z[1] - y[1]) * l == vy * d2);
}

/// Where two non-degenerate segments that are each given from their
/// lexicographically smaller endpoint meet in one point, that point is an
/// endpoint of each or lies strictly inside it.
pub proof fn lemma_point_split_ok(a1: Position, a2: Position, b1: Position, b2: Position, p: Position)
    requires
        lex_lt(a1, a2),
        lex_lt(b1, b2),
        seg_inter(a1, a2, b1, b2, false) == SegmentIntersection::Point(p),
    ensures
        split_ok(p, a1, a2),
        split_ok(p, b1, b2),
{
    let vax = a2[0] - a1[0];
    let vay = a2[1] - a1[1];
    let vbx = b2[0] - b1[0];
    let vby = b2[1] - b1[1];
    let ex = b1[0] - a1[0];
    let ey = b1[1] - a1[1];
    let kross = cross2(vax, vay, vbx, vby);
    if kross != 0 {
        let k = if kross > 0 { kross } else { -kross };
        let sn = if kross > 0 { cross2(ex, ey, vbx, vby) } else { -cross2(ex, ey, vbx, vby) };
        let tn = if kross > 0 { cross2(ex, ey, vax, vay) } else { -cross2(ex, ey, vax, vay) };
        lemma_cross_identity(vax, vay, vbx, vby, ex, ey);
        let cs = cross2(ex, ey, vbx, vby);
        let ct = cross2(ex, ey, vax, vay);
        assert(k * ex == sn * vax - tn * vbx && k * ey == sn * vay - tn * vby) by (nonlinear_arith)
            requires
                kross * ex == cs * vax - ct * vbx,
                kross * ey == cs * vay - ct * vby,
                k == (if kross > 0 { kross } else { -kross }),
                sn == (if kross > 0 { cs } else { -cs }),
                tn == (if kross > 0 { ct } else { -ct }),
        ;
        if sn == 0 || sn == k {
            // p is an endpoint of a; it sits at parameter tn / k along b
            let q = if sn == 0 { a1 } else { a2 };
            assert(p == q);
            assert(k * (q[0] - b1[0]) == tn * vbx && k * (q[1] - b1[1]) == tn * vby) by (nonlinear_arith)
                requires
                    k * ex == sn * vax - tn * vbx,
                    k * ey == sn * vay - tn * vby,
                    sn == 0 || sn == k,
                    q[0] == (if sn == 0 { a1[0] as int } else { a2[0] as int }),
                    q[1] == (if sn == 0 { a1[1] as int } else { a2[1] as int }),
                    vax == a2[0] - a1[0],
                    vay == a2[1] - a1[1],
                    ex == b1[0] - a1[0],
                    ey == b1[1] - a1[1],
            ;
            if tn == 0 {
                lemma_cancel(k, q[0] - b1[0], 0);
                lemma_cancel(k, q[1] - b1[1], 0);
                lemma_position_eq(q, b1);
            } else if tn == k {
                lemma_cancel(k, q[0] - b1[0], vbx);
                lemma_cancel(k, q[1] - b1[1], vby);
                lemma_position_eq(q, b2);
            } else {
                lemma_param_inside(b1, b2, q, k, tn);
            }
        } else if tn == 0 || tn == k {
            // p is an endpoint of b; it sits at parameter sn / k along a
            let q = if tn == 0 { b1 } else { b2 };
            assert(p == q);
            assert(k * (q[0] - a1[0]) == sn * vax && k * (q[1] - a1[1]) == sn * vay) by (nonlinear_arith)
                requires
                    k * ex == sn * vax - tn * vbx,
                    k * ey == sn * vay - tn * vby,
                    tn == 0 || tn == k,
                    q[0] == (if tn == 0 { b1[0] as int } else { b2[0] as int }),
                    q[1] == (if tn == 0 { b1[1] as int } else { b2[1] as int }),
                    vbx == b2[0] - b1[0],
                    vby == b2[1] - b1[1],
                    ex == b1[0] - a1[0],
                    ey == b1[1] - a1[1],
            ;
            lemma_param_inside(a1, a2, q, k, sn);
        } else {
        }
    } else {
        let len2 = dot2(vax, vay, vax, vay);
        let sa = dot2(vax, vay, ex, ey);
        let sb = dot2(vax, vay, b2[0] - a1[0], b2[1] - a1[1]);
        let pmin = if sa <= sb { b1 } else { b2 };
        let pmax = if sa <= sb { b2 } else { b1 };
        let smin = if sa <= sb { sa } else { sb };
        let smax = if sa <= sb { sb } else { sa };
        assert(cross2(ex, ey, vax, vay) == 0);
        // both endpoints of b lie on the line of a
        assert(cross2(b2[0] - a1[0], b2[1] - a1[1], vax, vay) == 0) by (nonlinear_arith)
            requires
                cross2(ex, ey, vax, vay) == 0,
                kross == 0,
                kross == cross2(vax, vay, vbx, vby),
                ex == b1[0] - a1[0],
                ey == b1[1] - a1[1],
                vbx == b2[0] - b1[0],
                vby == b2[1] - b1[1],
        ;
        assert(len2 > 0) by (nonlinear_arith)
            requires
                vax > 0 || (vax == 0 && vay > 0),
                len2 == vax * vax + vay * vay,
        ;
        if smin == len2 {
            // the nearer endpoint of b projects onto a2: it is a2
            let w0 = pmin[0] - a1[0];
            let w1 = pmin[1] - a1[1];
            assert(cross2(w0, w1, vax, vay) == 0);
            assert(vax * w0 + vay * w1 == vax * vax + vay * vay);
            assert((w0 - vax) * vay - (w1 - vay) * vax == 0) by (nonlinear_arith)
                requires
                    w0 * vay - w1 * vax == 0,
            ;
            assert(vax * (w0 - vax) + vay * (w1 - vay) == 0) by (nonlinear_arith)
                requires
                    vax * w0 + vay * w1 == vax * vax + vay * vay,
            ;
            lemma_zero_perp(w0 - vax, w1 - vay, vax, vay);
            lemma_position_eq(pmin, a2);
        } else {
            assert(smax == 0);
            let w0 = pmax[0] - a1[0];
            let w1 = pmax[1] - a1[1];
            assert(cross2(w0, w1, vax, vay) == 0);
            assert(vax * w0 + vay * w1 == 0);
            lemma_zero_perp(w0, w1, vax, vay);
            lemma_position_eq(pmax, a1);
        }
    }
}


/// Where two segments given from their lexicographically smaller endpoint
/// overlap on a stretch, all four endpoints lie on the line of the first,
/// and the projections order them as the overlap requires.
pub proof fn lemma_overlap_line(a1: Position, a2: Position, b1: Position, b2: Position)
    requires
        lex_lt(a1, a2),
        lex_lt(b1, b2),
        seg_inter(a1, a2, b1, b2, false) is Overlap,
    ensures
        ({
            let vx = a2[0] - a1[0];
            let vy = a2[1] - a1[1];
            &&& vx > 0 || (vx == 0 && vy > 0)
            &&& vx * vx + vy * vy > 0
            &&& on_line(a1, vx, vy, a1)
            &&& on_line(a1, vx, vy, a2)
            &&& on_line(a1, vx, vy, b1)
            &&& on_line(a1, vx, vy, b2)
            &&& proj(a1, vx, vy, a1) == 0
            &&& proj(a1, vx, vy, a2) == vx * vx + vy * vy
            &&& proj(a1, vx, vy, b1) < proj(a1, vx, vy, a2)
            &&& proj(a1, vx, vy, b2) > 0
            &&& proj(a1, vx, vy, b1) < proj(a1, vx, vy, b2)
        }),
{
    let vax = a2[0] - a1[0];
    let vay = a2[1] - a1[1];
    let vbx = b2[0] - b1[0];
    let vby = b2[1] - b1[1];
    let ex = b1[0] - a1[0];
    let ey = b1[1] - a1[1];
    let kross = cross2(vax, vay, vbx, vby);
    assert(kross == 0);
    assert(cross2(ex, ey, vax, vay) == 0);
    assert(cross2(b2[0] - a1[0], b2[1] - a1[1], vax, vay) == 0) by (nonlinear_arith)
        requires
            cross2(ex, ey, vax, vay) == 0,
            kross == 0,
            kross == cross2(vax, vay, vbx, vby),
            ex == b1[0] - a1[0],
            ey == b1[1] - a1[1],
            vbx == b2[0] - b1[0],
            vby == b2[1] - b1[1],
    ;
    assert(cross2(vax, vay, vax, vay) == 0) by (nonlinear_arith);
    assert(cross2(a1[0] - a1[0], a1[1] - a1[1], vax, vay) == 0);
    assert(vax * vax + vay * vay > 0) by (nonlinear_arith)
        requires
            vax > 0 || (vax == 0 && vay > 0),
    ;
    lemma_line_order(a1, vax, vay, b1, b2);
}

/// `q` lies in the bounding box of the points of the events of `a`: some
/// event is at or left of it and some at or right of it, some at or below
/// it and some at or above it.
pub open spec fn spanned(a: Seq<SweepEvent>, q: Position) -> bool {
    &&& exists|i: int, j: int|
        #![trigger a[i], a[j]]
        0 <= i < a.len() && 0 <= j < a.len() && a[i].point[0] <= q[0] && q[0] <= a[j].point[0]
    &&& exists|k: int, l: int|
        #![trigger a[k], a[l]]
        0 <= k < a.len() && 0 <= l < a.len() && a[k].point[1] <= q[1] && q[1] <= a[l].point[1]
}

/// Every event point lies in the bounding box of the events.
pub proof fn lemma_spanned_self(a: Seq<SweepEvent>, i: int)
    requires
        0 <= i < a.len(),
    ensures
        spanned(a, a[i].point),
{
    let q = a[i].point;
    assert(a[i].point[0] <= q[0] && q[0] <= a[i].point[0]);
    assert(a[i].point[1] <= q[1] && q[1] <= a[i].point[1]);
}

/// A point in the bounding box of two points of the box of `a` is in it.
pub proof fn lemma_spanned_box(a: Seq<SweepEvent>, x: Position, y: Position, p: Position)
    requires
        spanned(a, x),
        spanned(a, y),
        in_bbox(p, x, y),
    ensures
        spanned(a, p),
{
    let (xi, xj) = choose|i: int, j: int|
        #![trigger a[i], a[j]]
        0 <= i < a.len() && 0 <= j < a.len() && a[i].point[0] <= x[0] && x[0] <= a[j].point[0];
    let (xk, xl) = choose|k: int, l: int|
        #![trigger a[k], a[l]]
        0 <= k < a.len() && 0 <= l < a.len() && a[k].point[1] <= x[1] && x[1] <= a[l].point[1];
    let (yi, yj) = choose|i: int, j: int|
        #![trigger a[i], a[j]]
        0 <= i < a.len() && 0 <= j < a.len() && a[i].point[0] <= y[0] && y[0] <= a[j].point[0];
    let (yk, yl) = choose|k: int, l: int|
        #![trigger a[k], a[l]]
        0 <= k < a.len() && 0 <= l < a.len() && a[k].point[1] <= y[1] && y[1] <= a[l].point[1];
    if x[0] <= p[0] && p[0] <= y[0] {
        assert(a[xi].point[0] <= p[0] && p[0] <= a[yj].point[0]);
    } else {
        assert(a[yi].point[0] <= p[0] && p[0] <= a[xj].point[0]);
    }
    if x[1] <= p[1] && p[1] <= y[1] {
        assert(a[xk].point[1] <= p[1] && p[1] <= a[yl].point[1]);
    } else {
        assert(a[yk].point[1] <= p[1] && p[1] <= a[xl].point[1]);
    }
}

/// The box of `a1` lies in the box of `a0` when every point of `a1` does.
pub proof fn lemma_spanned_trans(a0: Seq<SweepEvent>, a1: Seq<SweepEvent>, q: Position)
    requires
        spanned(a1, q),
        forall|i: int| 0 <= i < a1.len() ==> spanned(a0, #[trigger] a1[i].point),
    ensures
        spanned(a0, q),
{
    let (i, j) = choose|i: int, j: int|
        #![trigger a1[i], a1[j]]
        0 <= i < a1.len() && 0 <= j < a1.len() && a1[i].point[0] <= q[0] && q[0] <= a1[j].point[0];
    let (k, l) = choose|k: int, l: int|
        #![trigger a1[k], a1[l]]
        0 <= k < a1.len() && 0 <= l < a1.len() && a1[k].point[1] <= q[1] && q[1] <= a1[l].point[1];
    let pi = a1[i].point;
    let pj = a1[j].point;
    let pk = a1[k].point;
    let pl = a1[l].point;
    assert(spanned(a0, pi));
    assert(spanned(a0, pj));
    assert(spanned(a0, pk));
    assert(spanned(a0, pl));
    let (i0, i1) = choose|u: int, v: int|
        #![trigger a0[u], a0[v]]
        0 <= u < a0.len() && 0 <= v < a0.len() && a0[u].point[0] <= pi[0] && pi[0] <= a0[v].point[0];
    let (j0, j1) = choose|u: int, v: int|
        #![trigger a0[u], a0[v]]
        0 <= u < a0.len() && 0 <= v < a0.len() && a0[u].point[0] <= pj[0] && pj[0] <= a0[v].point[0];
    let (k0, k1) = choose|u: int, v: int|
        #![trigger a0[u], a0[v]]
        0 <= u < a0.len() && 0 <= v < a0.len() && a0[u].point[1] <= pk[1] && pk[1] <= a0[v].point[1];
    let (l0, l1) = choose|u: int, v: int|
        #![trigger a0[u], a0[v]]
        0 <= u < a0.len() && 0 <= v < a0.len() && a0[u].point[1] <= pl[1] && pl[1] <= a0[v].point[1];
    assert(a0[i0].point[0] <= q[0] && q[0] <= a0[j1].point[0]);
    assert(a0[k0].point[1] <= q[1] && q[1] <= a0[l1].point[1]);
}

/// What one intersection test of the sweep-line neighbours `se1` and `se2`
/// keeps and changes, from arena `a` to arena `out`: `out` is well-formed,
/// only grows, weighs the same when it did not grow and less when it did,
/// keeps the points and sides of the old events, and re-links only `se1`,
/// `se2` and their peers, each to a new event; every new event lies in the
/// bounding box of the old ones.
#[verifier::opaque]
pub open spec fn progress(a: Seq<SweepEvent>, out: Seq<SweepEvent>, se1: usize, se2: usize) -> bool {
    &&& wf_arena(out)
    &&& out.len() >= a.len()
    &&& (out.len() == a.len() ==> arena_weight(out) == arena_weight(a))
    &&& (out.len() > a.len() ==> arena_weight(out) < arena_weight(a))
    &&& (output_ready(a) ==> output_ready(out))
    &&& forall|i: int|
        0 <= i < a.len() ==> (#[trigger] out[i]).point == a[i].point && out[i].left == a[i].left
    &&& forall|i: int|
        0 <= i < a.len() ==> (#[trigger] out[i]).other_event == a[i].other_event || ((i == se1 || i
            == se2 || i == peer(a, se1) || i == peer(a, se2)) && peer(out, i as usize) >= a.len())
    &&& forall|i: int| a.len() <= i < out.len() ==> spanned(a, #[trigger] out[i].point)
    &&& keeps_flags(a, out)
}

/// The old events keep their classification: in/out flags, the result
/// event below and the result transition.
pub open spec fn keeps_flags(a: Seq<SweepEvent>, out: Seq<SweepEvent>) -> bool {
    forall|i: int|
        0 <= i < a.len() && i < out.len() ==> (#[trigger] out[i]).in_out == a[i].in_out && out[i].other_in_out
            == a[i].other_in_out && out[i].prev_in_result == a[i].prev_in_result && out[i].result_transition
            == a[i].result_transition
}

/// Splitting a left event strictly inside its segment, at a point of its
/// bounding box: what changes.
pub proof fn lemma_split_step(a: Seq<SweepEvent>, e: usize, p: Position)
    requires
        wf_arena(a),
        e < a.len(),
        splits_inside(a, e, p),
        in_bbox(p, ev(a, e).point, peer_point(a, e)),
        a.len() + 2 <= usize::MAX,
    ensures
        ({
            let d = divided(a, e, p);
            let n = a.len() as int;
            let o = peer(a, e) as int;
            &&& wf_arena(d)
            &&& d.len() == n + 2
            &&& arena_weight(d) < arena_weight(a)
            &&& forall|i: int| 0 <= i < n ==> (#[trigger] d[i]).point == a[i].point && d[i].left == a[i].left
            &&& forall|i: int| 0 <= i < n && i != e && i != o ==> #[trigger] d[i] == a[i]
            &&& d[e as int].other_event == Some(n as usize)
            &&& d[o].other_event == Some((n + 1) as usize)
            &&& d[n].point == p
            &&& d[n + 1].point == p
            &&& d[n + 1].left
            &&& !d[n].left
            &&& d[n].other_event == Some(e)
            &&& d[n + 1].other_event == Some(o as usize)
        }),
{
    reveal(divided);
    lemma_divided_wf(a, e, p);
    lemma_wf_linked(a);
    lemma_divided_linked(a, e, p);
    lemma_weight_divided(a, e, p);
    assert(wf_event(a, e));
}

/// Splitting keeps the output fields unassigned.
proof fn lemma_split_ready(a: Seq<SweepEvent>, e: usize, p: Position)
    requires
        output_ready(a),
        has_peer(a, e),
    ensures
        output_ready(divided(a, e, p)),
{
    reveal(divided);
    let d = divided(a, e, p);
    let o = peer(a, e);
    let flip = crate::divide_segment::split_flips(a, e, p);
    let l = crate::divide_segment::split_left(a, e, p);
    let new_l = SweepEvent { left: if flip { false } else { l.left }, ..l };
    let new_o = SweepEvent {
        left: if flip { true } else { ev(a, o).left },
        other_event: Some(crate::divide_segment::second_new_index(a)),
        ..ev(a, o)
    };
    let new_e = SweepEvent { other_event: Some(crate::divide_segment::first_new_index(a)), ..ev(a, e) };
    let r = crate::divide_segment::split_right(a, e, p);
    assert(d == a.update(o as int, new_o).update(e as int, new_e).push(r).push(new_l));
    assert forall|i: int| 0 <= i < d.len() implies (#[trigger] d[i]).output_contour_id < 0 && (d[i].prev_in_result matches Some(j) ==> j < d.len()) by {
        if i < a.len() {
            assert(a[i].output_contour_id < 0);
            if i == e {
            } else if i == o {
                assert(a[o as int].output_contour_id < 0);
            } else {
                assert(d[i] == a[i]);
            }
        }
    }
}

/// A well-formed arena has all its peer indices inside it.
proof fn lemma_wf_links(a: Seq<SweepEvent>)
    requires
        wf_arena(a),
        a.len() <= usize::MAX,
    ensures
        links_ok(a),
{
    assert forall|i: int| 0 <= i < a.len() implies (#[trigger] a[i]).other_event is Some
        && a[i].other_event.unwrap() < a.len() by {
        assert(wf_event(a, i as usize));
    }
}

/// Before any test, an arena is in progress relative to itself.
pub proof fn lemma_progress_refl(a: Seq<SweepEvent>, se1: usize, se2: usize)
    requires
        wf_arena(a),
    ensures
        progress(a, a, se1, se2),
{
    reveal(progress);
}

/// One more split, of an old sweep-line neighbour or of a new event, whose
/// peer is a peer of a neighbour or new.
pub proof fn lemma_progress_step(a: Seq<SweepEvent>, a1: Seq<SweepEvent>, e: usize, p: Position, se1: usize, se2: usize)
    requires
        progress(a, a1, se1, se2),
        e < a1.len(),
        splits_inside(a1, e, p),
        in_bbox(p, ev(a1, e).point, peer_point(a1, e)),
        a1.len() + 2 <= usize::MAX,
        e >= a.len() || e == se1 || e == se2,
        peer(a1, e) >= a.len() || peer(a1, e) == peer(a, se1) || peer(a1, e) == peer(a, se2),
    ensures
        progress(a, divided(a1, e, p), se1, se2),
        divided(a1, e, p).len() == a1.len() + 2,
        forall|i: int|
            0 <= i < a1.len() && i != e && i != peer(a1, e) ==> #[trigger] divided(a1, e, p)[i] == a1[i],
{
    reveal(progress);
    lemma_split_step(a1, e, p);
    if output_ready(a) {
        assert(wf_event(a1, e));
        lemma_split_ready(a1, e, p);
    }
    let d = divided(a1, e, p);
    let o = peer(a1, e);
    assert forall|i: int| 0 <= i < a.len() implies (#[trigger] d[i]).point == a[i].point && d[i].left
        == a[i].left by {
        assert(a1[i].point == a[i].point);
    }
    assert forall|i: int| 0 <= i < a.len() implies (#[trigger] d[i]).other_event == a[i].other_event
        || ((i == se1 || i == se2 || i == peer(a, se1) || i == peer(a, se2)) && peer(d, i as usize)
        >= a.len()) by {
        assert(a1[i].point == a[i].point);
        if i == e || i == o {
        } else {
            assert(d[i].other_event == a1[i].other_event);
        }
    }
    assert(spanned(a, p)) by {
        assert(wf_event(a1, e));
        if e < a.len() {
            lemma_spanned_self(a, e as int);
            assert(a1[e as int].point == a[e as int].point);
        } else {
            assert(spanned(a, a1[e as int].point));
        }
        if o < a.len() {
            lemma_spanned_self(a, o as int);
            assert(a1[o as int].point == a[o as int].point);
        } else {
            assert(spanned(a, a1[o as int].point));
        }
        lemma_spanned_box(a, ev(a1, e).point, peer_point(a1, e), p);
    }
    assert(keeps_flags(a, d)) by {
        reveal(divided);
        assert forall|i: int| 0 <= i < a.len() && i < d.len() implies (#[trigger] d[i]).in_out == a[i].in_out
            && d[i].other_in_out == a[i].other_in_out && d[i].prev_in_result == a[i].prev_in_result
            && d[i].result_transition == a[i].result_transition by {
            assert(a1[i].in_out == a[i].in_out);
        }
    }
    assert forall|i: int| a.len() <= i < d.len() implies spanned(a, #[trigger] d[i].point) by {
        if i < a1.len() {
            assert(d[i].point == a1[i].point);
        }
    }
}

/// Marking a shared-left overlap changes only edge types.
pub proof fn lemma_progress_marked(a: Seq<SweepEvent>, se1: usize, se2: usize)
    requires
        wf_arena(a),
        se1 < a.len(),
        se2 < a.len(),
    ensures
        progress(a, marked_shared_left(a, se1, se2), se1, se2),
{
    reveal(progress);
    let m = marked_shared_left(a, se1, se2);
    assert forall|i: usize| i < m.len() implies #[trigger] wf_event(m, i) by {
        assert(wf_event(a, i));
        assert(wf_event(a, peer(a, i)));
    }
    lemma_wf_linked(a);
    lemma_weight_same_links(a, m, a.len() as int);
    if output_ready(a) {
        assert forall|i: int| 0 <= i < m.len() implies (#[trigger] m[i]).output_contour_id < 0 && (m[i].prev_in_result matches Some(j) ==> j < m.len()) by {
            assert(a[i].output_contour_id < 0);
        }
    }
}


/// The facts about two sweep-line neighbours that every case below uses:
/// both are left events whose peers are right events pointing back.
proof fn lemma_neighbours(a: Seq<SweepEvent>, se1: usize, se2: usize)
    requires
        wf_arena(a),
        se1 < a.len(),
        se2 < a.len(),
        ev(a, se1).left,
        ev(a, se2).left,
    ensures
        has_peer(a, se1),
        has_peer(a, se2),
        peer(a, se1) != se1,
        peer(a, se2) != se2,
        lex_lt(ev(a, se1).point, peer_point(a, se1)),
        lex_lt(ev(a, se2).point, peer_point(a, se2)),
        peer(a, se1) < a.len(),
        peer(a, se2) < a.len(),
        !ev(a, peer(a, se1)).left,
        !ev(a, peer(a, se2)).left,
        peer(a, peer(a, se1)) == se1,
        peer(a, peer(a, se2)) == se2,
        se1 != se2 ==> peer(a, se1) != peer(a, se2),
{
    assert(wf_event(a, se1));
    assert(wf_event(a, se2));
}

/// The crossing case: each neighbour is split at most once, strictly
/// inside.
#[verifier::rlimit(60)]
proof fn lemma_point_progress(a: Seq<SweepEvent>, se1: usize, se2: usize, p: Position)
    requires
        wf_arena(a),
        se1 < a.len(),
        se2 < a.len(),
        ev(a, se1).left,
        ev(a, se2).left,
        seg_inter(ev(a, se1).point, peer_point(a, se1), ev(a, se2).point, peer_point(a, se2), false)
            == SegmentIntersection::Point(p),
        intersection_outcome(a, se1, se2).0.len() <= usize::MAX,
        a.len() <= usize::MAX,
    ensures
        progress(a, intersection_outcome(a, se1, se2).0, se1, se2),
{
    let p1 = ev(a, se1).point;
    let q1 = peer_point(a, se1);
    let p2 = ev(a, se2).point;
    let q2 = peer_point(a, se2);
    lemma_neighbours(a, se1, se2);
    lemma_progress_refl(a, se1, se2);
    if p1 == p2 || q1 == q2 {
        return;
    }
    lemma_point_split_ok(p1, q1, p2, q2, p);
    let a1 = if p != p1 && p != q1 {
        divided(a, se1, p)
    } else {
        a
    };
    let split1 = p != p1 && p != q1;
    let split2 = p != p2 && p != q2;
    assert(wf_event(a, se1));
    if split1 {
        lemma_divided_shape(a, se1, p);
    }
    // the second neighbour is untouched by the first split
    assert(a1[se2 as int] == a[se2 as int]);
    assert(a1[peer(a, se2) as int] == a[peer(a, se2) as int]);
    if split2 {
        lemma_divided_shape(a1, se2, p);
    }
    if split1 {
        lemma_progress_step(a, a, se1, p, se1, se2);
    }
    assert(progress(a, a1, se1, se2));
    if split2 {
        lemma_progress_step(a, a1, se2, p, se1, se2);
    }
}

/// Overlap with a shared left endpoint.
proof fn lemma_overlap_shared_left(a: Seq<SweepEvent>, se1: usize, se2: usize)
    requires
        wf_arena(a),
        se1 < a.len(),
        se2 < a.len(),
        se1 != se2,
        ev(a, se1).left,
        ev(a, se2).left,
        seg_inter(ev(a, se1).point, peer_point(a, se1), ev(a, se2).point, peer_point(a, se2), false) is Overlap,
        overlap_outcome(a, se1, se2).0.len() <= usize::MAX,
        a.len() <= usize::MAX,
        ev(a, se1).point == ev(a, se2).point,
    ensures
        progress(a, overlap_outcome(a, se1, se2).0, se1, se2),
{
    let o1 = peer(a, se1);
    let o2 = peer(a, se2);
    let p1 = ev(a, se1).point;
    let q1 = peer_point(a, se1);
    let p2 = ev(a, se2).point;
    let q2 = peer_point(a, se2);
    let n = a.len() as int;
    lemma_neighbours(a, se1, se2);
    lemma_overlap_line(p1, q1, p2, q2);
    let vx = q1[0] - p1[0];
    let vy = q1[1] - p1[1];
    lemma_progress_refl(a, se1, se2);
    let evs = overlap_order(a, se1, se2);
    lemma_line_order(p1, vx, vy, p1, p2);
    lemma_line_order(p1, vx, vy, q1, q2);
    lemma_line_order(p1, vx, vy, q2, q1);
    let a2 = marked_shared_left(a, se1, se2);
    lemma_progress_marked(a, se1, se2);
    if q1 == q2 {
        return;
    }
    assert(ev(a, o1).point != ev(a, o2).point);
    lemma_distinct_points_order(a, o1, o2);
    if lex_lt(q2, q1) {
        assert(evs =~= seq![o2, o1]);
        assert(peer(a2, o1) == se1);
        lemma_divided_shape(a2, se1, q2);
        lemma_line_between(p1, vx, vy, p1, q2, q1);
        lemma_progress_step(a, a2, se1, q2, se1, se2);
    } else {
        assert(evs =~= seq![o1, o2]);
        assert(peer(a2, o2) == se2);
        lemma_divided_shape(a2, se2, q1);
        lemma_line_between(p1, vx, vy, p2, q1, q2);
        lemma_progress_step(a, a2, se2, q1, se1, se2);
    }
}

/// Overlap with a shared right endpoint only.
proof fn lemma_overlap_shared_right(a: Seq<SweepEvent>, se1: usize, se2: usize)
    requires
        wf_arena(a),
        se1 < a.len(),
        se2 < a.len(),
        se1 != se2,
        ev(a, se1).left,
        ev(a, se2).left,
        seg_inter(ev(a, se1).point, peer_point(a, se1), ev(a, se2).point, peer_point(a, se2), false) is Overlap,
        overlap_outcome(a, se1, se2).0.len() <= usize::MAX,
        a.len() <= usize::MAX,
        ev(a, se1).point != ev(a, se2).point,
        peer_point(a, se1) == peer_point(a, se2),
    ensures
        progress(a, overlap_outcome(a, se1, se2).0, se1, se2),
{
    let o1 = peer(a, se1);
    let o2 = peer(a, se2);
    let p1 = ev(a, se1).point;
    let q1 = peer_point(a, se1);
    let p2 = ev(a, se2).point;
    let q2 = peer_point(a, se2);
    let n = a.len() as int;
    lemma_neighbours(a, se1, se2);
    lemma_overlap_line(p1, q1, p2, q2);
    let vx = q1[0] - p1[0];
    let vy = q1[1] - p1[1];
    lemma_progress_refl(a, se1, se2);
    let evs = overlap_order(a, se1, se2);
    lemma_line_order(p1, vx, vy, p1, p2);
    lemma_line_order(p1, vx, vy, p2, p1);
    lemma_line_order(p1, vx, vy, q1, q2);
    lemma_distinct_points_order(a, se1, se2);
    if lex_lt(p2, p1) {
        assert(evs =~= seq![se2, se1]);
        lemma_divided_shape(a, se2, p1);
        lemma_line_between(p1, vx, vy, p2, p1, q2);
        lemma_progress_step(a, a, se2, p1, se1, se2);
    } else {
        assert(evs =~= seq![se1, se2]);
        lemma_divided_shape(a, se1, p2);
        lemma_line_between(p1, vx, vy, p1, p2, q1);
        lemma_progress_step(a, a, se1, p2, se1, se2);
    }
}

/// Overlap without shared endpoints, the first segment starting first.
#[verifier::rlimit(60)]
proof fn lemma_overlap_apart_first(a: Seq<SweepEvent>, se1: usize, se2: usize)
    requires
        wf_arena(a),
        se1 < a.len(),
        se2 < a.len(),
        se1 != se2,
        ev(a, se1).left,
        ev(a, se2).left,
        seg_inter(ev(a, se1).point, peer_point(a, se1), ev(a, se2).point, peer_point(a, se2), false) is Overlap,
        overlap_outcome(a, se1, se2).0.len() <= usize::MAX,
        a.len() <= usize::MAX,
        lex_lt(ev(a, se1).point, ev(a, se2).point),
        peer_point(a, se1) != peer_point(a, se2),
    ensures
        progress(a, overlap_outcome(a, se1, se2).0, se1, se2),
{
    let o1 = peer(a, se1);
    let o2 = peer(a, se2);
    let p1 = ev(a, se1).point;
    let q1 = peer_point(a, se1);
    let p2 = ev(a, se2).point;
    let q2 = peer_point(a, se2);
    let n = a.len() as int;
    let out = overlap_outcome(a, se1, se2).0;
    lemma_neighbours(a, se1, se2);
    lemma_overlap_line(p1, q1, p2, q2);
    let vx = q1[0] - p1[0];
    let vy = q1[1] - p1[1];
    lemma_progress_refl(a, se1, se2);
    let evs = overlap_order(a, se1, se2);
    lemma_line_order(p1, vx, vy, p1, p2);
    lemma_line_order(p1, vx, vy, q1, q2);
    lemma_line_order(p1, vx, vy, q2, q1);
    lemma_line_order(p1, vx, vy, p2, q1);
    lemma_distinct_points_order(a, se1, se2);
    assert(ev(a, o1).point != ev(a, o2).point);
    lemma_distinct_points_order(a, o1, o2);
    lemma_wf_links(a);
    let d1 = divided(a, se1, p2);
    lemma_divided_shape(a, se1, p2);
    if lex_lt(q1, q2) {
        assert(evs =~= seq![se1, se2, o1, o2]);
        assert(d1[se2 as int] == a[se2 as int]);
        lemma_divided_shape(d1, se2, q1);
        assert(out == divided(d1, se2, q1));
    } else {
        assert(evs =~= seq![se1, se2, o2, o1]);
        lemma_divided_len(d1, peer(d1, o1), q2);
        assert(out == divided(d1, peer(d1, o1), q2));
    }
    assert(out.len() == n + 4);
    lemma_line_between(p1, vx, vy, p1, p2, q1);
    lemma_progress_step(a, a, se1, p2, se1, se2);
    lemma_split_step(a, se1, p2);
    if lex_lt(q1, q2) {
        lemma_line_between(p1, vx, vy, p2, q1, q2);
        lemma_progress_step(a, d1, se2, q1, se1, se2);
    } else {
        assert(peer(d1, o1) == n + 1);
        lemma_line_between(p1, vx, vy, p2, q2, q1);
        lemma_progress_step(a, d1, (n + 1) as usize, q2, se1, se2);
    }
}

/// Overlap without shared endpoints, the second segment starting first.
#[verifier::rlimit(60)]
proof fn lemma_overlap_apart_second(a: Seq<SweepEvent>, se1: usize, se2: usize)
    requires
        wf_arena(a),
        se1 < a.len(),
        se2 < a.len(),
        se1 != se2,
        ev(a, se1).left,
        ev(a, se2).left,
        seg_inter(ev(a, se1).point, peer_point(a, se1), ev(a, se2).point, peer_point(a, se2), false) is Overlap,
        overlap_outcome(a, se1, se2).0.len() <= usize::MAX,
        a.len() <= usize::MAX,
        lex_lt(ev(a, se2).point, ev(a, se1).point),
        peer_point(a, se1) != peer_point(a, se2),
    ensures
        progress(a, overlap_outcome(a, se1, se2).0, se1, se2),
{
    let o1 = peer(a, se1);
    let o2 = peer(a, se2);
    let p1 = ev(a, se1).point;
    let q1 = peer_point(a, se1);
    let p2 = ev(a, se2).point;
    let q2 = peer_point(a, se2);
    let n = a.len() as int;
    let out = overlap_outcome(a, se1, se2).0;
    lemma_neighbours(a, se1, se2);
    lemma_overlap_line(p1, q1, p2, q2);
    let vx = q1[0] - p1[0];
    let vy = q1[1] - p1[1];
    lemma_progress_refl(a, se1, se2);
    let evs = overlap_order(a, se1, se2);
    lemma_line_order(p1, vx, vy, p2, p1);
    lemma_line_order(p1, vx, vy, p1, p2);
    lemma_line_order(p1, vx, vy, q1, q2);
    lemma_line_order(p1, vx, vy, q2, q1);
    lemma_line_order(p1, vx, vy, p1, q2);
    lemma_distinct_points_order(a, se1, se2);
    assert(ev(a, o1).point != ev(a, o2).point);
    lemma_distinct_points_order(a, o1, o2);
    lemma_wf_links(a);
    let d1 = divided(a, se2, p1);
    lemma_divided_shape(a, se2, p1);
    if lex_lt(q1, q2) {
        assert(evs =~= seq![se2, se1, o1, o2]);
        lemma_divided_len(d1, peer(d1, o2), q1);
        assert(out == divided(d1, peer(d1, o2), q1));
    } else {
        assert(evs =~= seq![se2, se1, o2, o1]);
        assert(d1[se1 as int] == a[se1 as int]);
        lemma_divided_shape(d1, se1, q2);
        assert(out == divided(d1, se1, q2));
    }
    assert(out.len() == n + 4);
    lemma_line_between(p1, vx, vy, p2, p1, q2);
    lemma_progress_step(a, a, se2, p1, se1, se2);
    lemma_split_step(a, se2, p1);
    if lex_lt(q1, q2) {
        assert(peer(d1, o2) == n + 1);
        lemma_line_between(p1, vx, vy, p1, q1, q2);
        lemma_progress_step(a, d1, (n + 1) as usize, q1, se1, se2);
    } else {
        lemma_line_between(p1, vx, vy, p1, q2, q1);
        lemma_progress_step(a, d1, se1, q2, se1, se2);
    }
}

/// The overlap case for neighbours of different polygons.
proof fn lemma_overlap_progress(a: Seq<SweepEvent>, se1: usize, se2: usize)
    requires
        wf_arena(a),
        se1 < a.len(),
        se2 < a.len(),
        se1 != se2,
        ev(a, se1).left,
        ev(a, se2).left,
        seg_inter(ev(a, se1).point, peer_point(a, se1), ev(a, se2).point, peer_point(a, se2), false) is Overlap,
        overlap_outcome(a, se1, se2).0.len() <= usize::MAX,
        a.len() <= usize::MAX,
    ensures
        progress(a, overlap_outcome(a, se1, se2).0, se1, se2),
{
    let p1 = ev(a, se1).point;
    let p2 = ev(a, se2).point;
    if p1 == p2 {
        lemma_overlap_shared_left(a, se1, se2);
    } else if peer_point(a, se1) == peer_point(a, se2) {
        lemma_overlap_shared_right(a, se1, se2);
    } else if lex_lt(p1, p2) {
        lemma_overlap_apart_first(a, se1, se2);
    } else {
        lemma_position_eq(p1, p2);
        lemma_overlap_apart_second(a, se1, se2);
    }
}

/// One intersection test of two sweep-line neighbours (both left events of
/// a well-formed arena) makes progress: see [`progress`].
pub proof fn lemma_outcome_progress(a: Seq<SweepEvent>, se1: usize, se2: usize)
    requires
        wf_arena(a),
        se1 < a.len(),
        se2 < a.len(),
        ev(a, se1).left,
        ev(a, se2).left,
        intersection_outcome(a, se1, se2).0.len() <= usize::MAX,
        a.len() <= usize::MAX,
    ensures
        progress(a, intersection_outcome(a, se1, se2).0, se1, se2),
{
    let p1 = ev(a, se1).point;
    let q1 = peer_point(a, se1);
    let p2 = ev(a, se2).point;
    let q2 = peer_point(a, se2);
    lemma_progress_refl(a, se1, se2);
    match seg_inter(p1, q1, p2, q2, false) {
        SegmentIntersection::NoIntersection => {},
        SegmentIntersection::Point(p) => {
            lemma_point_progress(a, se1, se2, p);
        },
        SegmentIntersection::Overlap(_, _) => {
            if (ev(a, se1).polygon_type == PolygonType::Subject) != (ev(a, se2).polygon_type
                == PolygonType::Subject) {
                lemma_overlap_progress(a, se1, se2);
            }
        },
    }
}

} // verus!
