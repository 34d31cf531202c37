//! A weight of the segments of an arena that every split decreases.
//!
//! Each event contributes `3^d` where `d` is the squared length of its
//! segment. A split inside a segment replaces two contributions `3^d` by
//! four contributions `3^d1`, `3^d2` with `d1, d2 < d`, so the total
//! strictly drops: this is what makes the sweep terminate.
use crate::divide_segment::{divided, splits_inside};
use crate::segment_intersection::in_bbox;
use crate::sweep_event::{linked_arena, linked_event, peer, wf_arena, wf_event, SweepEvent};
use crate::types::Position;
use vstd::prelude::*;

verus! {

/// `3^n`.
pub open spec fn pow3(n: nat) -> nat
    decreases n,
{
    if n == 0 {
        1
    } else {
        3 * pow3((n - 1) as nat)
    }
}

/// Squared distance of two positions.
pub open spec fn dist2(a: Position, b: Position) -> nat {
    ((a[0] - b[0]) * (a[0] - b[0]) + (a[1] - b[1]) * (a[1] - b[1])) as nat
}

/// The weight of event `i`: `3` to the squared length of its segment.
pub open spec fn seg_weight(arena: Seq<SweepEvent>, i: int) -> nat {
    pow3(dist2(arena[i].point, arena[peer(arena, i as usize) as int].point))
}

/// The total weight of the first `k` events.
pub open spec fn weight_upto(arena: Seq<SweepEvent>, k: int) -> nat
    decreases k,
{
    if k <= 0 {
        0
    } else {
        weight_upto(arena, k - 1) + seg_weight(arena, k - 1)
    }
}

/// The total weight of an arena.
pub open spec fn arena_weight(arena: Seq<SweepEvent>) -> nat {
    weight_upto(arena, arena.len() as int)
}

/// `3^n` is positive and grows with `n`.
pub proof fn lemma_pow3_mono(m: nat, n: nat)
    requires
        m <= n,
    ensures
        1 <= pow3(m) <= pow3(n),
    decreases n,
{
    if m < n {
        lemma_pow3_mono(m, (n - 1) as nat);
    } else if n > 0 {
        lemma_pow3_mono(0, (n - 1) as nat);
    }
}

/// One coordinate of a point of a bounding box is no farther from a corner
/// than the opposite corner, and as far only at that corner.
proof fn lemma_coord_closer(p: int, a: int, b: int)
    requires
        a <= p <= b || b <= p <= a,
    ensures
        (p - a) * (p - a) <= (b - a) * (b - a),
        (p - a) * (p - a) == (b - a) * (b - a) ==> p == b,
{
    assert((p - a) * (p - a) <= (b - a) * (b - a)) by (nonlinear_arith)
        requires
            a <= p <= b || b <= p <= a,
    ;
    assert((p - a) * (p - a) == (b - a) * (b - a) ==> p == b) by (nonlinear_arith)
        requires
            a <= p <= b || b <= p <= a,
    ;
}

/// A point of the bounding box of `a` and `b`, other than `b`, is closer
/// to `a` than `b` is.
pub proof fn lemma_dist_in_bbox(p: Position, a: Position, b: Position)
    requires
        in_bbox(p, a, b),
        p != b,
    ensures
        dist2(a, p) < dist2(a, b),
{
    lemma_coord_closer(p[0] as int, a[0] as int, b[0] as int);
    lemma_coord_closer(p[1] as int, a[1] as int, b[1] as int);
    crate::equals::lemma_position_eq(p, b);
    assert(dist2(a, p) == (p[0] - a[0]) * (p[0] - a[0]) + (p[1] - a[1]) * (p[1] - a[1])) by (nonlinear_arith);
    assert(dist2(a, b) == (b[0] - a[0]) * (b[0] - a[0]) + (b[1] - a[1]) * (b[1] - a[1])) by (nonlinear_arith);
}

/// Squared distance is symmetric.
pub proof fn lemma_dist_sym(a: Position, b: Position)
    ensures
        dist2(a, b) == dist2(b, a),
{
    assert((a[0] - b[0]) * (a[0] - b[0]) == (b[0] - a[0]) * (b[0] - a[0])) by (nonlinear_arith);
    assert((a[1] - b[1]) * (a[1] - b[1]) == (b[1] - a[1]) * (b[1] - a[1])) by (nonlinear_arith);
}

/// Totals of two arenas of one length whose weights agree everywhere but
/// at `e` and `o` differ by the weights there.
proof fn lemma_weight_two_changes(a: Seq<SweepEvent>, d: Seq<SweepEvent>, e: int, o: int, k: int)
    requires
        0 <= k <= a.len(),
        a.len() <= d.len(),
        e != o,
        forall|i: int| 0 <= i < a.len() && i != e && i != o ==> seg_weight(d, i) == seg_weight(a, i),
    ensures
        weight_upto(d, k) + (if 0 <= e < k { seg_weight(a, e) } else { 0 }) + (if 0 <= o < k {
            seg_weight(a, o)
        } else {
            0
        }) == weight_upto(a, k) + (if 0 <= e < k { seg_weight(d, e) } else { 0 }) + (if 0 <= o < k {
            seg_weight(d, o)
        } else {
            0
        }),
    decreases k,
{
    if k > 0 {
        lemma_weight_two_changes(a, d, e, o, k - 1);
    }
}

/// Arenas that agree on the points and links of all events weigh the same.
pub proof fn lemma_weight_same_links(a: Seq<SweepEvent>, d: Seq<SweepEvent>, k: int)
    requires
        a.len() == d.len(),
        linked_arena(a),
        0 <= k <= a.len(),
        forall|i: int| 0 <= i < a.len() ==> (#[trigger] d[i]).point == a[i].point && d[i].other_event == a[i].other_event,
    ensures
        weight_upto(d, k) == weight_upto(a, k),
    decreases k,
{
    if k > 0 {
        lemma_weight_same_links(a, d, k - 1);
        let i = k - 1;
        assert(linked_event(a, i as usize));
        let j = peer(a, i as usize) as int;
        assert(d[i].other_event == a[i].other_event);
        assert(d[j].point == a[j].point);
    }
}

/// Splitting a left event of a well-formed arena strictly inside its
/// segment, at a point of the segment's bounding box, lowers the weight.
pub proof fn lemma_weight_divided(a: Seq<SweepEvent>, e: usize, p: Position)
    requires
        wf_arena(a),
        e < a.len(),
        splits_inside(a, e, p),
        in_bbox(p, a[e as int].point, a[peer(a, e) as int].point),
        a.len() + 2 <= usize::MAX,
    ensures
        arena_weight(divided(a, e, p)) < arena_weight(a),
{
    reveal(divided);
    let o = peer(a, e);
    let n = a.len() as int;
    let d = divided(a, e, p);
    let pa = a[e as int].point;
    let pb = a[o as int].point;
    assert(wf_event(a, e));
    assert(wf_event(a, o));
    crate::divide_segment::lemma_divided_wf(a, e, p);
    crate::sweep_event::lemma_wf_linked(a);
    crate::divide_segment::lemma_divided_linked(a, e, p);
    assert forall|i: int| 0 <= i < n && i != e && i != o implies seg_weight(d, i) == seg_weight(a, i) by {
        assert(wf_event(a, i as usize));
        let j = peer(a, i as usize);
        assert(j != e) by {
            if j == e {
                assert(a[e as int].other_event == Some(i as usize));
            }
        }
        assert(j != o) by {
            if j == o {
                assert(a[o as int].other_event == Some(e));
            }
        }
    }
    lemma_weight_two_changes(a, d, e as int, o as int, n);
    assert(weight_upto(d, n + 1) == weight_upto(d, n) + seg_weight(d, n));
    assert(weight_upto(d, n + 2) == weight_upto(d, n + 1) + seg_weight(d, n + 1));
    // the old segment (pa, pb) becomes (pa, p) and (p, pb)
    crate::equals::lemma_position_eq(pa, p);
    crate::equals::lemma_position_eq(pb, p);
    lemma_dist_in_bbox(p, pa, pb);
    assert(in_bbox(p, pb, pa));
    lemma_dist_in_bbox(p, pb, pa);
    let big = dist2(pa, pb);
    lemma_dist_sym(pb, pa);
    lemma_dist_sym(p, pa);
    lemma_dist_sym(p, pb);
    assert(big > 0);
    let m = (big - 1) as nat;
    lemma_pow3_mono(dist2(pa, p), m);
    lemma_pow3_mono(dist2(pb, p), m);
    assert(pow3(big) == 3 * pow3(m));
    assert(seg_weight(a, e as int) == pow3(big));
    assert(seg_weight(a, o as int) == pow3(big));
    assert(seg_weight(d, e as int) == pow3(dist2(pa, p)));
    assert(seg_weight(d, o as int) == pow3(dist2(pb, p)));
    assert(seg_weight(d, n) == pow3(dist2(p, pa)));
    assert(seg_weight(d, n + 1) == pow3(dist2(p, pb)));
}

} // verus!
