//! Priority queue of sweep events.
//!
//! A binary min-heap of arena indices, sifted with the event order.
//! Comparing two events needs the arena (to reach the peers), so `push`
//! and `pop` take it as a parameter; the queue itself only stores indices.
//! The event order refines the order by point and then side (right
//! endpoints first), so the heap keeps that order, and `pop` returns an
//! event at the lexicographically smallest queued point, a right endpoint
//! if one is queued there. Where the event order is a strict total order
//! on the queued events (it is not on every arena: a zero-length segment
//! or two events without peers at one point break it), the heap keeps it
//! too and `pop` returns the first queued event in that order.
use crate::compare_events::{comes_before, comparable, event_before, lemma_order_never_equal, link_ok, ties};
use crate::sweep_event::{ev, has_peer, lex_le, nth, peer_point, SweepEvent};
use vstd::prelude::*;
use vstd::multiset::Multiset;

verus! {

/// Min-heap of event indices.
pub struct EventQueue {
    heap: Vec<usize>,
}

/// Every two queued indices can be compared in the arena.
pub open spec fn pairwise_comparable(arena: Seq<SweepEvent>, s: Seq<usize>) -> bool {
    forall|a: usize, b: usize|
        #![trigger s.contains(a), s.contains(b)]
        s.contains(a) && s.contains(b) ==> comparable(arena, a, b)
}

/// Every queued index names an event with a peer.
pub open spec fn all_linked(arena: Seq<SweepEvent>, s: Seq<usize>) -> bool {
    forall|k: int| 0 <= k < s.len() ==> has_peer(arena, #[trigger] s[k])
}

/// Events that all have peers can be compared pairwise.
pub proof fn lemma_linked_comparable(arena: Seq<SweepEvent>, s: Seq<usize>)
    requires
        all_linked(arena, s),
    ensures
        pairwise_comparable(arena, s),
{
    assert forall|a: usize, b: usize|
        #![trigger s.contains(a), s.contains(b)]
        s.contains(a) && s.contains(b) implies comparable(arena, a, b) by {
        let ka = choose|k: int| 0 <= k < s.len() && s[k] == a;
        let kb = choose|k: int| 0 <= k < s.len() && s[k] == b;
        assert(has_peer(arena, s[ka]));
        assert(has_peer(arena, s[kb]));
    }
}

/// Every queued index names an event of the arena whose peer link is
/// unset or points into the arena.
pub open spec fn links_queued(arena: Seq<SweepEvent>, s: Seq<usize>) -> bool {
    forall|k: int| 0 <= k < s.len() ==> #[trigger] s[k] < arena.len() && link_ok(arena, s[k])
}

/// Queued events with sound links can be compared pairwise, and only
/// those.
pub proof fn lemma_links_comparable(arena: Seq<SweepEvent>, s: Seq<usize>)
    ensures
        links_queued(arena, s) <==> pairwise_comparable(arena, s),
{
    if links_queued(arena, s) {
        assert forall|a: usize, b: usize|
            #![trigger s.contains(a), s.contains(b)]
            s.contains(a) && s.contains(b) implies comparable(arena, a, b) by {
            let ka = choose|k: int| 0 <= k < s.len() && s[k] == a;
            let kb = choose|k: int| 0 <= k < s.len() && s[k] == b;
            assert(s[ka] < arena.len() && link_ok(arena, s[ka]));
            assert(s[kb] < arena.len() && link_ok(arena, s[kb]));
        }
    }
    if pairwise_comparable(arena, s) {
        assert forall|k: int| 0 <= k < s.len() implies #[trigger] s[k] < arena.len() && link_ok(arena, s[k]) by {
            assert(s.contains(s[k]));
            assert(comparable(arena, s[k], s[k]));
        }
    }
}

/// The order the heap keeps from a parent to its children: by point, `x`
/// then `y`; with `by_side`, at a tied point a right endpoint before a
/// left one.
#[verifier::opaque]
pub open spec fn queue_le(a: SweepEvent, b: SweepEvent, by_side: bool) -> bool {
    ||| a.point[0] < b.point[0]
    ||| (a.point[0] == b.point[0] && a.point[1] < b.point[1])
    ||| (a.point[0] == b.point[0] && a.point[1] == b.point[1] && (by_side ==> (!a.left || b.left)))
}

/// [`queue_le`] is transitive.
pub proof fn lemma_queue_le_trans(x: SweepEvent, y: SweepEvent, z: SweepEvent, by_side: bool)
    requires
        queue_le(x, y, by_side),
        queue_le(y, z, by_side),
    ensures
        queue_le(x, z, by_side),
{
    reveal(queue_le);
}

/// The event at position `j` of a queue.
pub open spec fn qev(arena: Seq<SweepEvent>, s: Seq<usize>, j: int) -> SweepEvent {
    arena[s[j] as int]
}

/// Entry `j` of a queue does not come before its parent.
pub open spec fn child_ok(arena: Seq<SweepEvent>, s: Seq<usize>, j: int, by_side: bool) -> bool {
    queue_le(qev(arena, s, (j - 1) / 2), qev(arena, s, j), by_side)
}

/// The heap order by [`queue_le`]: no event comes before its parent.
pub open spec fn heap_ordered_by(arena: Seq<SweepEvent>, s: Seq<usize>, by_side: bool) -> bool {
    forall|j: int| 0 < j < s.len() ==> #[trigger] child_ok(arena, s, j, by_side)
}

/// The heap order by point: no event sits at a point lexicographically
/// smaller than its parent's.
pub open spec fn heap_ordered(arena: Seq<SweepEvent>, s: Seq<usize>) -> bool {
    heap_ordered_by(arena, s, false)
}

/// The heap order by point and side: no event sits at a point
/// lexicographically smaller than its parent's, nor is a right endpoint
/// under a left one at the same point.
pub open spec fn heap_keyed(arena: Seq<SweepEvent>, s: Seq<usize>) -> bool {
    heap_ordered_by(arena, s, true)
}

/// The heap order while sifting entry `i` up: it holds everywhere but
/// between `i` and its parent, and `i`'s parent is below `i`'s children.
pub open spec fn heap_up_except(arena: Seq<SweepEvent>, s: Seq<usize>, i: int, by_side: bool) -> bool {
    &&& forall|j: int| 0 < j < s.len() && j != i ==> #[trigger] child_ok(arena, s, j, by_side)
    &&& (i > 0 ==> forall|j: int|
        0 < j < s.len() && (j - 1) / 2 == i ==> queue_le(qev(arena, s, (i - 1) / 2), #[trigger] qev(arena, s, j), by_side))
}

/// The heap order while sifting entry `i` down: it holds everywhere but
/// between `i` and its children, and `i`'s parent is below `i`'s children.
pub open spec fn heap_down_except(arena: Seq<SweepEvent>, s: Seq<usize>, i: int, by_side: bool) -> bool {
    &&& forall|j: int| 0 < j < s.len() && (j - 1) / 2 != i ==> #[trigger] child_ok(arena, s, j, by_side)
    &&& (i > 0 ==> forall|j: int|
        0 < j < s.len() && (j - 1) / 2 == i ==> queue_le(qev(arena, s, (i - 1) / 2), #[trigger] qev(arena, s, j), by_side))
}

/// The event order refines the heap order: the event that comes first is
/// never above the other.
pub proof fn lemma_order_queue_le(arena: Seq<SweepEvent>, i1: usize, i2: usize, by_side: bool)
    ensures
        event_before(arena, i1, i2) ==> queue_le(ev(arena, i1), ev(arena, i2), by_side),
        !event_before(arena, i1, i2) ==> queue_le(ev(arena, i2), ev(arena, i1), by_side),
{
    reveal(queue_le);
    lemma_order_never_equal(ev(arena, i1), ev(arena, i2), peer_point(arena, i1), peer_point(arena, i2));
}

/// An event first in the order by point and side comes first in the event
/// order too, against every event that does not tie with it on point and
/// side.
pub proof fn lemma_key_before(arena: Seq<SweepEvent>, i1: usize, i2: usize)
    requires
        queue_le(ev(arena, i1), ev(arena, i2), true),
        !ties(arena, i1, i2),
    ensures
        event_before(arena, i1, i2),
{
    reveal(queue_le);
    if ev(arena, i1).point[0] == ev(arena, i2).point[0] && ev(arena, i1).point[1] == ev(arena, i2).point[1] {
        crate::equals::lemma_position_eq(ev(arena, i1).point, ev(arena, i2).point);
    }
}

/// Appending to a heap leaves the heap order broken at most at the new
/// entry.
proof fn lemma_push_up(arena: Seq<SweepEvent>, s: Seq<usize>, idx: usize, b: bool)
    requires
        heap_ordered_by(arena, s, b),
    ensures
        heap_up_except(arena, s.push(idx), s.len() as int, b),
{
    let t = s.push(idx);
    assert forall|j: int| 0 < j < t.len() && j != s.len() implies #[trigger] child_ok(arena, t, j, b) by {
        assert(child_ok(arena, s, j, b));
        assert(qev(arena, s, (j - 1) / 2) == qev(arena, t, (j - 1) / 2));
        assert(qev(arena, s, j) == qev(arena, t, j));
    }
}

/// Moving the last entry to the front leaves the heap order broken at
/// most below the front.
proof fn lemma_remove_down(arena: Seq<SweepEvent>, s: Seq<usize>, b: bool)
    requires
        heap_ordered_by(arena, s, b),
        s.len() >= 2,
    ensures
        heap_down_except(arena, s.update(0, s.last()).drop_last(), 0, b),
{
    let t = s.update(0, s.last()).drop_last();
    assert forall|j: int| 0 < j < t.len() && (j - 1) / 2 != 0 implies #[trigger] child_ok(arena, t, j, b) by {
        assert(child_ok(arena, s, j, b));
        assert(qev(arena, s, (j - 1) / 2) == qev(arena, t, (j - 1) / 2));
        assert(qev(arena, s, j) == qev(arena, t, j));
    }
}

/// Swapping entry `i` with its parent when it comes first moves the break
/// in the heap order up to the parent.
proof fn lemma_up_swap(arena: Seq<SweepEvent>, s: Seq<usize>, i: int, b: bool)
    requires
        0 < i < s.len(),
        heap_up_except(arena, s, i, b),
        queue_le(qev(arena, s, i), qev(arena, s, (i - 1) / 2), b),
    ensures
        heap_up_except(arena, s.update(i, s[(i - 1) / 2]).update((i - 1) / 2, s[i]), (i - 1) / 2, b),
{
    let p = (i - 1) / 2;
    let t = s.update(i, s[p]).update(p, s[i]);
    assert forall|j: int| 0 < j < t.len() && j != p implies #[trigger] child_ok(arena, t, j, b) by {
        if j == i {
        } else if (j - 1) / 2 == i {
            assert(qev(arena, t, j) == qev(arena, s, j));
            assert(queue_le(qev(arena, s, p), qev(arena, s, j), b));
        } else if (j - 1) / 2 == p {
            assert(child_ok(arena, s, j, b));
            assert(qev(arena, t, j) == qev(arena, s, j));
            lemma_queue_le_trans(qev(arena, s, i), qev(arena, s, p), qev(arena, s, j), b);
        } else {
            assert(child_ok(arena, s, j, b));
            assert(qev(arena, t, j) == qev(arena, s, j));
            assert(qev(arena, t, (j - 1) / 2) == qev(arena, s, (j - 1) / 2));
        }
    }
    if p > 0 {
        assert(child_ok(arena, s, p, b));
        assert forall|j: int| 0 < j < t.len() && (j - 1) / 2 == p implies queue_le(
            qev(arena, t, (p - 1) / 2),
            #[trigger] qev(arena, t, j),
            b,
        ) by {
            if j != i {
                assert(child_ok(arena, s, j, b));
                assert(qev(arena, t, j) == qev(arena, s, j));
                lemma_queue_le_trans(qev(arena, s, (p - 1) / 2), qev(arena, s, p), qev(arena, s, j), b);
            }
        }
    }
}

/// When entry `i` does not come before its parent, the heap order holds.
proof fn lemma_up_stop(arena: Seq<SweepEvent>, s: Seq<usize>, i: int, b: bool)
    requires
        0 <= i < s.len(),
        heap_up_except(arena, s, i, b),
        i > 0 ==> queue_le(qev(arena, s, (i - 1) / 2), qev(arena, s, i), b),
    ensures
        heap_ordered_by(arena, s, b),
{
    assert forall|j: int| 0 < j < s.len() implies #[trigger] child_ok(arena, s, j, b) by {
        if j == i {
        }
    }
}

/// The children of entry `i` in a heap of `n` entries: `l` and `r`, or `n`
/// where a child is missing.
pub open spec fn children(i: int, l: int, r: int, n: int) -> bool {
    &&& (l == 2 * i + 1 && l < n) || (l == n && 2 * i + 1 >= n)
    &&& (r == 2 * i + 2 && r < n) || (r == n && 2 * i + 2 >= n)
}

/// The entry that comes first among entry `i` and its children, picked by
/// comparing the left child with `i` and then the right child with the
/// winner, comes first in the heap order too.
proof fn lemma_pick_first(arena: Seq<SweepEvent>, s: Seq<usize>, i: int, l: int, r: int, mid: int, m: int, b: bool)
    requires
        0 <= i < s.len(),
        children(i, l, r, s.len() as int),
        mid == i || mid == l,
        mid == l ==> l < s.len() && event_before(arena, s[l], s[i]),
        mid == i && l < s.len() ==> !event_before(arena, s[l], s[i]),
        m == mid || m == r,
        m == r ==> r < s.len() && event_before(arena, s[r], s[mid]),
        m == mid && r < s.len() ==> !event_before(arena, s[r], s[mid]),
    ensures
        queue_le(qev(arena, s, m), qev(arena, s, i), b),
        l < s.len() ==> queue_le(qev(arena, s, m), qev(arena, s, l), b),
        r < s.len() ==> queue_le(qev(arena, s, m), qev(arena, s, r), b),
{
    reveal(queue_le);
    if l < s.len() {
        lemma_order_queue_le(arena, s[l], s[i], b);
    }
    if r < s.len() {
        lemma_order_queue_le(arena, s[r], s[mid], b);
    }
}

/// When neither child of entry `i` comes before it, the heap order holds.
proof fn lemma_down_stop(arena: Seq<SweepEvent>, s: Seq<usize>, i: int, l: int, r: int, b: bool)
    requires
        0 <= i < s.len(),
        children(i, l, r, s.len() as int),
        heap_down_except(arena, s, i, b),
        l < s.len() ==> queue_le(qev(arena, s, i), qev(arena, s, l), b),
        r < s.len() ==> queue_le(qev(arena, s, i), qev(arena, s, r), b),
    ensures
        heap_ordered_by(arena, s, b),
{
    assert forall|j: int| 0 < j < s.len() implies #[trigger] child_ok(arena, s, j, b) by {
        if (j - 1) / 2 == i {
            assert(j == l || j == r);
        }
    }
}

/// Swapping entry `i` with the child `m` that comes first among `i` and
/// its children moves the break in the heap order down to `m`.
proof fn lemma_down_swap(arena: Seq<SweepEvent>, s: Seq<usize>, i: int, l: int, r: int, m: int, b: bool)
    requires
        0 <= i < s.len(),
        children(i, l, r, s.len() as int),
        m == l || m == r,
        m < s.len(),
        heap_down_except(arena, s, i, b),
        queue_le(qev(arena, s, m), qev(arena, s, i), b),
        l < s.len() ==> queue_le(qev(arena, s, m), qev(arena, s, l), b),
        r < s.len() ==> queue_le(qev(arena, s, m), qev(arena, s, r), b),
    ensures
        heap_down_except(arena, s.update(i, s[m]).update(m, s[i]), m, b),
{
    let t = s.update(i, s[m]).update(m, s[i]);
    assert((m - 1) / 2 == i);
    assert forall|j: int| 0 < j < t.len() && (j - 1) / 2 != m implies #[trigger] child_ok(arena, t, j, b) by {
        if j == m {
        } else if j == i {
            assert(qev(arena, t, (i - 1) / 2) == qev(arena, s, (i - 1) / 2));
            assert(queue_le(qev(arena, s, (i - 1) / 2), qev(arena, s, m), b));
        } else if (j - 1) / 2 == i {
            assert(j == l || j == r);
            assert(qev(arena, t, j) == qev(arena, s, j));
        } else {
            assert(child_ok(arena, s, j, b));
            assert(qev(arena, t, j) == qev(arena, s, j));
            assert(qev(arena, t, (j - 1) / 2) == qev(arena, s, (j - 1) / 2));
        }
    }
    assert forall|j: int| 0 < j < t.len() && (j - 1) / 2 == m implies queue_le(
        qev(arena, t, (m - 1) / 2),
        #[trigger] qev(arena, t, j),
        b,
    ) by {
        assert(child_ok(arena, s, j, b));
        assert(qev(arena, t, j) == qev(arena, s, j));
    }
}

/// The front of a heap-ordered queue comes first in the heap order.
pub proof fn lemma_heap_root_min(arena: Seq<SweepEvent>, s: Seq<usize>, k: int, by_side: bool)
    requires
        heap_ordered_by(arena, s, by_side),
        0 <= k < s.len(),
    ensures
        queue_le(qev(arena, s, 0), qev(arena, s, k), by_side),
    decreases k,
{
    if k > 0 {
        lemma_heap_root_min(arena, s, (k - 1) / 2, by_side);
        assert(child_ok(arena, s, k, by_side));
        lemma_queue_le_trans(qev(arena, s, 0), qev(arena, s, (k - 1) / 2), qev(arena, s, k), by_side);
    } else {
        reveal(queue_le);
    }
}

/// The heap order by point depends only on the points of the queued
/// events.
pub proof fn lemma_heap_frame(a1: Seq<SweepEvent>, a2: Seq<SweepEvent>, s: Seq<usize>)
    requires
        heap_ordered(a1, s),
        forall|k: int| 0 <= k < s.len() ==> a2[#[trigger] s[k] as int].point == a1[s[k] as int].point,
    ensures
        heap_ordered(a2, s),
{
    assert forall|j: int| 0 < j < s.len() implies #[trigger] child_ok(a2, s, j, false) by {
        assert(child_ok(a1, s, j, false));
        assert(a2[s[(j - 1) / 2] as int].point == a1[s[(j - 1) / 2] as int].point);
        assert(a2[s[j] as int].point == a1[s[j] as int].point);
        reveal(queue_le);
    }
}

/// The event order is a strict total order on the entries of `s`: of two
/// different entries exactly one comes first, and coming first is
/// transitive.
pub open spec fn strict_on(arena: Seq<SweepEvent>, s: Seq<usize>) -> bool {
    &&& forall|a: usize, b: usize|
        #![trigger s.contains(a), s.contains(b)]
        s.contains(a) && s.contains(b) && a != b ==> event_before(arena, a, b) != event_before(arena, b, a)
    &&& forall|a: usize, b: usize, c: usize|
        #![trigger event_before(arena, a, b), event_before(arena, b, c)]
        s.contains(a) && s.contains(b) && s.contains(c) && event_before(arena, a, b) && event_before(arena, b, c)
            ==> event_before(arena, a, c)
}

/// The heap order by the event order: `y` below `x` is `x` itself, or does
/// not come before it.
pub open spec fn ev_le(arena: Seq<SweepEvent>, x: usize, y: usize) -> bool {
    x == y || !event_before(arena, y, x)
}

/// Entry `j` of a queue does not come before its parent in event order.
pub open spec fn child_ok_ev(arena: Seq<SweepEvent>, s: Seq<usize>, j: int) -> bool {
    ev_le(arena, s[(j - 1) / 2], s[j])
}

/// The heap order by the event order: no entry comes before its parent.
pub open spec fn heap_by_events(arena: Seq<SweepEvent>, s: Seq<usize>) -> bool {
    forall|j: int| 0 < j < s.len() ==> #[trigger] child_ok_ev(arena, s, j)
}

/// [`heap_by_events`] while sifting entry `i` up.
pub open spec fn heap_up_except_ev(arena: Seq<SweepEvent>, s: Seq<usize>, i: int) -> bool {
    &&& forall|j: int| 0 < j < s.len() && j != i ==> #[trigger] child_ok_ev(arena, s, j)
    &&& (i > 0 ==> forall|j: int| 0 < j < s.len() && (j - 1) / 2 == i ==> ev_le(arena, s[(i - 1) / 2], #[trigger] s[j]))
}

/// [`heap_by_events`] while sifting entry `i` down.
pub open spec fn heap_down_except_ev(arena: Seq<SweepEvent>, s: Seq<usize>, i: int) -> bool {
    &&& forall|j: int| 0 < j < s.len() && (j - 1) / 2 != i ==> #[trigger] child_ok_ev(arena, s, j)
    &&& (i > 0 ==> forall|j: int| 0 < j < s.len() && (j - 1) / 2 == i ==> ev_le(arena, s[(i - 1) / 2], #[trigger] s[j]))
}

/// Rearranging a queue keeps the event order strict on its entries.
proof fn lemma_strict_same(arena: Seq<SweepEvent>, s: Seq<usize>, t: Seq<usize>)
    requires
        strict_on(arena, s),
        forall|x: usize| t.contains(x) ==> s.contains(x),
    ensures
        strict_on(arena, t),
{
    assert forall|a: usize, b: usize|
        #![trigger t.contains(a), t.contains(b)]
        t.contains(a) && t.contains(b) && a != b implies event_before(arena, a, b) != event_before(arena, b, a) by {
        assert(s.contains(a) && s.contains(b));
    }
    assert forall|a: usize, b: usize, c: usize|
        #![trigger event_before(arena, a, b), event_before(arena, b, c)]
        t.contains(a) && t.contains(b) && t.contains(c) && event_before(arena, a, b) && event_before(arena, b, c)
        implies event_before(arena, a, c) by {
        assert(s.contains(a) && s.contains(b) && s.contains(c));
    }
}

/// [`ev_le`] is transitive on the entries of a queue where the event
/// order is strict.
proof fn lemma_ev_le_trans(arena: Seq<SweepEvent>, s: Seq<usize>, x: usize, y: usize, z: usize)
    requires
        strict_on(arena, s),
        s.contains(x),
        s.contains(y),
        s.contains(z),
        ev_le(arena, x, y),
        ev_le(arena, y, z),
    ensures
        ev_le(arena, x, z),
{
    if x != y && y != z && x != z {
        assert(event_before(arena, x, y) != event_before(arena, y, x));
        assert(event_before(arena, y, z) != event_before(arena, z, y));
        assert(event_before(arena, x, y) && event_before(arena, y, z));
        assert(event_before(arena, x, z));
        assert(event_before(arena, x, z) != event_before(arena, z, x));
    }
}

/// The outcome of comparing two entries, as [`ev_le`].
proof fn lemma_before_ev(arena: Seq<SweepEvent>, s: Seq<usize>, x: usize, y: usize)
    requires
        strict_on(arena, s),
        s.contains(x),
        s.contains(y),
    ensures
        event_before(arena, x, y) ==> ev_le(arena, x, y),
        !event_before(arena, x, y) ==> ev_le(arena, y, x),
{
    if x != y {
        assert(event_before(arena, x, y) != event_before(arena, y, x));
    }
}

proof fn lemma_seq_has(s: Seq<usize>, j: int)
    requires
        0 <= j < s.len(),
    ensures
        s.contains(s[j]),
{
}

/// Appending to a heap leaves the event-order heap broken at most at the
/// new entry.
proof fn lemma_push_up_ev(arena: Seq<SweepEvent>, s: Seq<usize>, idx: usize)
    requires
        heap_by_events(arena, s),
    ensures
        heap_up_except_ev(arena, s.push(idx), s.len() as int),
{
    let t = s.push(idx);
    assert forall|j: int| 0 < j < t.len() && j != s.len() implies #[trigger] child_ok_ev(arena, t, j) by {
        assert(child_ok_ev(arena, s, j));
        assert(t[j] == s[j] && t[(j - 1) / 2] == s[(j - 1) / 2]);
    }
}

/// Moving the last entry to the front leaves the event-order heap broken
/// at most below the front.
proof fn lemma_remove_down_ev(arena: Seq<SweepEvent>, s: Seq<usize>)
    requires
        heap_by_events(arena, s),
        s.len() >= 2,
    ensures
        heap_down_except_ev(arena, s.update(0, s.last()).drop_last(), 0),
{
    let t = s.update(0, s.last()).drop_last();
    assert forall|j: int| 0 < j < t.len() && (j - 1) / 2 != 0 implies #[trigger] child_ok_ev(arena, t, j) by {
        assert(child_ok_ev(arena, s, j));
        assert(t[j] == s[j] && t[(j - 1) / 2] == s[(j - 1) / 2]);
    }
}

/// Swapping entry `i` with its parent when it comes first moves the break
/// up to the parent.
proof fn lemma_up_swap_ev(arena: Seq<SweepEvent>, s: Seq<usize>, i: int)
    requires
        0 < i < s.len(),
        strict_on(arena, s),
        heap_up_except_ev(arena, s, i),
        ev_le(arena, s[i], s[(i - 1) / 2]),
    ensures
        heap_up_except_ev(arena, s.update(i, s[(i - 1) / 2]).update((i - 1) / 2, s[i]), (i - 1) / 2),
{
    let p = (i - 1) / 2;
    let t = s.update(i, s[p]).update(p, s[i]);
    lemma_seq_has(s, i);
    lemma_seq_has(s, p);
    assert forall|j: int| 0 < j < t.len() && j != p implies #[trigger] child_ok_ev(arena, t, j) by {
        if j == i {
        } else if (j - 1) / 2 == i {
            assert(t[j] == s[j]);
            assert(ev_le(arena, s[p], s[j]));
        } else if (j - 1) / 2 == p {
            assert(child_ok_ev(arena, s, j));
            assert(t[j] == s[j]);
            lemma_seq_has(s, j);
            lemma_ev_le_trans(arena, s, s[i], s[p], s[j]);
        } else {
            assert(child_ok_ev(arena, s, j));
            assert(t[j] == s[j]);
            assert(t[(j - 1) / 2] == s[(j - 1) / 2]);
        }
    }
    if p > 0 {
        assert(child_ok_ev(arena, s, p));
        lemma_seq_has(s, (p - 1) / 2);
        assert forall|j: int| 0 < j < t.len() && (j - 1) / 2 == p implies ev_le(arena, t[(p - 1) / 2], #[trigger] t[j]) by {
            assert(t[(p - 1) / 2] == s[(p - 1) / 2]);
            if j != i {
                assert(child_ok_ev(arena, s, j));
                assert(t[j] == s[j]);
                lemma_seq_has(s, j);
                lemma_ev_le_trans(arena, s, s[(p - 1) / 2], s[p], s[j]);
            }
        }
    }
}

/// When entry `i` does not come before its parent, the event-order heap
/// holds.
proof fn lemma_up_stop_ev(arena: Seq<SweepEvent>, s: Seq<usize>, i: int)
    requires
        0 <= i < s.len(),
        heap_up_except_ev(arena, s, i),
        i > 0 ==> ev_le(arena, s[(i - 1) / 2], s[i]),
    ensures
        heap_by_events(arena, s),
{
    assert forall|j: int| 0 < j < s.len() implies #[trigger] child_ok_ev(arena, s, j) by {
        if j == i {
        }
    }
}

/// The entry picked among entry `i` and its children comes first among
/// them in the event-order heap.
proof fn lemma_pick_first_ev(arena: Seq<SweepEvent>, s: Seq<usize>, i: int, l: int, r: int, mid: int, m: int)
    requires
        0 <= i < s.len(),
        strict_on(arena, s),
        children(i, l, r, s.len() as int),
        mid == i || mid == l,
        mid == l ==> l < s.len() && event_before(arena, s[l], s[i]),
        mid == i && l < s.len() ==> !event_before(arena, s[l], s[i]),
        m == mid || m == r,
        m == r ==> r < s.len() && event_before(arena, s[r], s[mid]),
        m == mid && r < s.len() ==> !event_before(arena, s[r], s[mid]),
    ensures
        ev_le(arena, s[m], s[i]),
        l < s.len() ==> ev_le(arena, s[m], s[l]),
        r < s.len() ==> ev_le(arena, s[m], s[r]),
{
    lemma_seq_has(s, i);
    if l < s.len() {
        lemma_seq_has(s, l);
        lemma_before_ev(arena, s, s[l], s[i]);
    }
    if r < s.len() {
        lemma_seq_has(s, r);
        lemma_seq_has(s, mid);
        lemma_before_ev(arena, s, s[r], s[mid]);
        if m == r {
            lemma_ev_le_trans(arena, s, s[r], s[mid], s[i]);
            if l < s.len() {
                if mid == l {
                } else {
                    lemma_ev_le_trans(arena, s, s[r], s[i], s[l]);
                }
            }
        }
    }
}

/// When neither child of entry `i` comes before it, the event-order heap
/// holds.
proof fn lemma_down_stop_ev(arena: Seq<SweepEvent>, s: Seq<usize>, i: int, l: int, r: int)
    requires
        0 <= i < s.len(),
        children(i, l, r, s.len() as int),
        heap_down_except_ev(arena, s, i),
        l < s.len() ==> ev_le(arena, s[i], s[l]),
        r < s.len() ==> ev_le(arena, s[i], s[r]),
    ensures
        heap_by_events(arena, s),
{
    assert forall|j: int| 0 < j < s.len() implies #[trigger] child_ok_ev(arena, s, j) by {
        if (j - 1) / 2 == i {
            assert(j == l || j == r);
        }
    }
}

/// Swapping entry `i` with its first child `m` moves the break down to
/// `m`.
proof fn lemma_down_swap_ev(arena: Seq<SweepEvent>, s: Seq<usize>, i: int, l: int, r: int, m: int)
    requires
        0 <= i < s.len(),
        strict_on(arena, s),
        children(i, l, r, s.len() as int),
        m == l || m == r,
        m < s.len(),
        heap_down_except_ev(arena, s, i),
        ev_le(arena, s[m], s[i]),
        l < s.len() ==> ev_le(arena, s[m], s[l]),
        r < s.len() ==> ev_le(arena, s[m], s[r]),
    ensures
        heap_down_except_ev(arena, s.update(i, s[m]).update(m, s[i]), m),
{
    let t = s.update(i, s[m]).update(m, s[i]);
    assert((m - 1) / 2 == i);
    assert forall|j: int| 0 < j < t.len() && (j - 1) / 2 != m implies #[trigger] child_ok_ev(arena, t, j) by {
        if j == m {
        } else if j == i {
            assert(t[(i - 1) / 2] == s[(i - 1) / 2]);
            assert(ev_le(arena, s[(i - 1) / 2], s[m]));
        } else if (j - 1) / 2 == i {
            assert(j == l || j == r);
            assert(t[j] == s[j]);
        } else {
            assert(child_ok_ev(arena, s, j));
            assert(t[j] == s[j]);
            assert(t[(j - 1) / 2] == s[(j - 1) / 2]);
        }
    }
    assert forall|j: int| 0 < j < t.len() && (j - 1) / 2 == m implies ev_le(arena, t[(m - 1) / 2], #[trigger] t[j]) by {
        assert(child_ok_ev(arena, s, j));
        assert(t[j] == s[j]);
        assert(t[(m - 1) / 2] == s[m]);
    }
}

/// The front of an event-order heap comes first among its entries.
pub proof fn lemma_heap_root_min_ev(arena: Seq<SweepEvent>, s: Seq<usize>, k: int)
    requires
        heap_by_events(arena, s),
        strict_on(arena, s),
        0 <= k < s.len(),
    ensures
        ev_le(arena, s[0], s[k]),
    decreases k,
{
    if k > 0 {
        lemma_heap_root_min_ev(arena, s, (k - 1) / 2);
        assert(child_ok_ev(arena, s, k));
        lemma_seq_has(s, 0);
        lemma_seq_has(s, (k - 1) / 2);
        lemma_seq_has(s, k);
        lemma_ev_le_trans(arena, s, s[0], s[(k - 1) / 2], s[k]);
    }
}

impl View for EventQueue {
    type V = Seq<usize>;

    /// The heap array: index `0` is the front of the queue.
    closed spec fn view(&self) -> Seq<usize> {
        self.heap@
    }
}

/// Swapping two entries keeps the multiset of a sequence.
pub proof fn lemma_swap_multiset(s: Seq<usize>, i: int, j: int)
    requires
        0 <= i < s.len(),
        0 <= j < s.len(),
    ensures
        s.update(i, s[j]).update(j, s[i]).to_multiset() == s.to_multiset(),
        forall|x: usize| s.update(i, s[j]).update(j, s[i]).contains(x) <==> s.contains(x),
{
    broadcast use vstd::seq_lib::to_multiset_update, vstd::seq_lib::to_multiset_contains;
    broadcast use vstd::multiset::group_multiset_axioms, vstd::multiset::group_multiset_properties;

    let t = s.update(i, s[j]);
    let u = t.update(j, s[i]);
    assert(t.to_multiset() == s.to_multiset().insert(s[j]).remove(s[i]));
    assert(u.to_multiset() == t.to_multiset().insert(s[i]).remove(t[j]));
    if i == j {
        assert(u =~= s);
    } else {
        assert(t[j] == s[j]);
        assert(u.to_multiset() =~= s.to_multiset());
    }
    assert forall|x: usize| u.contains(x) <==> s.contains(x) by {
        assert(u.to_multiset().count(x) == s.to_multiset().count(x));
    }
}

/// Removing the front by moving the last entry there leaves the multiset
/// without one copy of the front.
pub proof fn lemma_swap_remove_front(s: Seq<usize>)
    requires
        s.len() > 0,
    ensures
        s.update(0, s.last()).drop_last().to_multiset() == s.to_multiset().remove(s[0]),
{
    broadcast use vstd::seq_lib::to_multiset_update, vstd::seq_lib::to_multiset_remove;
    broadcast use vstd::multiset::group_multiset_axioms, vstd::multiset::group_multiset_properties;

    let t = s.update(0, s.last());
    assert(t.drop_last() =~= t.remove(t.len() - 1));
    if s.len() == 1 {
        assert(t.drop_last() =~= s.remove(0));
    } else {
        assert(t[t.len() - 1] == s.last());
        assert(t.drop_last().to_multiset() =~= s.to_multiset().insert(s.last()).remove(s[0]).remove(
            s.last(),
        ));
        assert(s.to_multiset().insert(s.last()).remove(s[0]).remove(s.last()) =~= s.to_multiset().remove(s[0]));
    }
}

impl EventQueue {
    /// An empty queue; it is in heap order for every arena.
    pub fn new() -> (q: Self)
        ensures
            q@ == Seq::<usize>::empty(),
            forall|arena: Seq<SweepEvent>| #[trigger] heap_keyed(arena, q@) && heap_ordered(arena, q@) && heap_by_events(arena, q@),
    {
        EventQueue { heap: Vec::new() }
    }

    /// Whether the queue holds no event.
    pub fn is_empty(&self) -> (r: bool)
        ensures
            r == (self@.len() == 0),
    {
        self.heap.len() == 0
    }

    /// Number of queued events.
    pub fn len(&self) -> (r: usize)
        ensures
            r == self@.len(),
    {
        self.heap.len()
    }

    /// Insert `idx`, restoring the heap order by sifting up.
    pub fn push(&mut self, arena: &Vec<SweepEvent>, idx: usize)
        requires
            pairwise_comparable(arena@, old(self)@.push(idx)),
        ensures
            final(self)@.to_multiset() == old(self)@.to_multiset().insert(idx),
            final(self)@.len() == old(self)@.len() + 1,
            forall|x: usize| final(self)@.contains(x) <==> (old(self)@.contains(x) || x == idx),
            heap_ordered(arena@, old(self)@) ==> heap_ordered(arena@, final(self)@),
            heap_keyed(arena@, old(self)@) ==> heap_keyed(arena@, final(self)@),
            heap_by_events(arena@, old(self)@) && strict_on(arena@, old(self)@.push(idx)) ==> heap_by_events(
                arena@,
                final(self)@,
            ),
    {
        broadcast use vstd::seq_lib::to_multiset_build;
        broadcast use vstd::seq_lib::to_multiset_contains;
        broadcast use vstd::multiset::group_multiset_axioms;

        let ghost before = self.heap@;
        proof {
            if heap_ordered(arena@, before) {
                lemma_push_up(arena@, before, idx, false);
            }
            if heap_keyed(arena@, before) {
                lemma_push_up(arena@, before, idx, true);
            }
            if heap_by_events(arena@, before) {
                lemma_push_up_ev(arena@, before, idx);
            }
        }
        self.heap.push(idx);
        let n = self.heap.len();
        self.sift_up(arena, n - 1);
        proof {
            assert(before.push(idx).to_multiset() == before.to_multiset().insert(idx));
            assert(before == old(self)@);
            assert(self.heap@ == self@);
            assert forall|x: usize| #[trigger] self@.contains(x) <==> (before.contains(x) || x == idx) by {
                assert(self.heap@.to_multiset().count(x) == before.push(idx).to_multiset().count(x));
                assert(before.to_multiset().insert(idx).count(x) == before.to_multiset().count(x) + if x == idx { 1int } else { 0int });
            }
        }
    }

    /// Remove and return the front event, or `None` if the queue is empty.
    /// In heap order the front sits at a lexicographically smallest point;
    /// in the order by point and side it is moreover a right endpoint when
    /// a right endpoint is queued at that point. In heap order by events
    /// ([`heap_by_events`]), on a queue whose events the event order ranks
    /// strictly ([`strict_on`]), the front comes before every other queued
    /// event in event order, and the rest stays in heap order by events.
    pub fn pop(&mut self, arena: &Vec<SweepEvent>) -> (r: Option<usize>)
        requires
            pairwise_comparable(arena@, old(self)@),
        ensures
            old(self)@.len() == 0 ==> r is None && final(self)@ == old(self)@,
            old(self)@.len() > 0 ==> {
                &&& r == Some(old(self)@[0])
                &&& final(self)@.to_multiset() == old(self)@.to_multiset().remove(old(self)@[0])
                &&& final(self)@.len() == old(self)@.len() - 1
                &&& forall|x: usize| #[trigger] final(self)@.contains(x) ==> old(self)@.contains(x)
            },
            heap_ordered(arena@, old(self)@) ==> heap_ordered(arena@, final(self)@),
            heap_keyed(arena@, old(self)@) ==> heap_keyed(arena@, final(self)@),
            heap_by_events(arena@, old(self)@) && strict_on(arena@, old(self)@) ==> heap_by_events(arena@, final(self)@),
            heap_by_events(arena@, old(self)@) && strict_on(arena@, old(self)@) && old(self)@.len() > 0 ==> forall|k: int|
                0 <= k < old(self)@.len() ==> old(self)@[0] == #[trigger] old(self)@[k] || event_before(
                    arena@,
                    old(self)@[0],
                    old(self)@[k],
                ),
            heap_ordered(arena@, old(self)@) && old(self)@.len() > 0 ==> forall|k: int|
                0 <= k < old(self)@.len() ==> lex_le(
                    arena@[old(self)@[0] as int].point,
                    #[trigger] arena@[old(self)@[k] as int].point,
                ),
            heap_keyed(arena@, old(self)@) && old(self)@.len() > 0 ==> forall|k: int|
                0 <= k < old(self)@.len() ==> queue_le(
                    arena@[old(self)@[0] as int],
                    #[trigger] arena@[old(self)@[k] as int],
                    true,
                ),
            heap_keyed(arena@, old(self)@) && old(self)@.len() > 0 ==> forall|k: int|
                0 <= k < old(self)@.len() && !ties(arena@, old(self)@[0], #[trigger] old(self)@[k]) ==> event_before(
                    arena@,
                    old(self)@[0],
                    old(self)@[k],
                ),
    {
        proof {
            if old(self)@.len() > 0 {
                assert forall|k: int| heap_ordered(arena@, old(self)@) && 0 <= k < old(self)@.len() implies lex_le(
                    arena@[old(self)@[0] as int].point,
                    #[trigger] arena@[old(self)@[k] as int].point,
                ) by {
                    lemma_heap_root_min(arena@, old(self)@, k, false);
                    reveal(queue_le);
                }
                assert forall|k: int| heap_keyed(arena@, old(self)@) && 0 <= k < old(self)@.len() implies queue_le(
                    arena@[old(self)@[0] as int],
                    #[trigger] arena@[old(self)@[k] as int],
                    true,
                ) by {
                    lemma_heap_root_min(arena@, old(self)@, k, true);
                }
                assert forall|k: int| heap_keyed(arena@, old(self)@) && 0 <= k < old(self)@.len() && !ties(arena@, old(self)@[0], #[trigger] old(self)@[k]) implies event_before(
                    arena@,
                    old(self)@[0],
                    old(self)@[k],
                ) by {
                    lemma_heap_root_min(arena@, old(self)@, k, true);
                    lemma_key_before(arena@, old(self)@[0], old(self)@[k]);
                }
                assert forall|k: int| heap_by_events(arena@, old(self)@) && strict_on(arena@, old(self)@) && 0 <= k < old(self)@.len()
                    implies old(self)@[0] == #[trigger] old(self)@[k] || event_before(arena@, old(self)@[0], old(self)@[k]) by {
                    lemma_heap_root_min_ev(arena@, old(self)@, k);
                    lemma_seq_has(old(self)@, 0);
                    lemma_seq_has(old(self)@, k);
                    lemma_before_ev(arena@, old(self)@, old(self)@[0], old(self)@[k]);
                }
            }
        }
        let n = self.heap.len();
        if n == 0 {
            return None;
        }
        proof {
            lemma_swap_remove_front(self.heap@);
        }
        if n == 1 {
            let r = self.heap.pop();
            proof {
                assert(self.heap@ =~= old(self)@.update(0, old(self)@.last()).drop_last());
                assert(self.heap@.len() == 0);
            }
            return r;
        }
        let ghost before = self.heap@;
        proof {
            if heap_ordered(arena@, before) {
                lemma_remove_down(arena@, before, false);
            }
            if heap_keyed(arena@, before) {
                lemma_remove_down(arena@, before, true);
            }
            if heap_by_events(arena@, before) {
                lemma_remove_down_ev(arena@, before);
            }
        }
        let result = self.heap.swap_remove(0);
        proof {
            broadcast use vstd::seq_lib::to_multiset_contains;
            assert forall|x: usize| self.heap@.contains(x) implies before.contains(x) by {
                broadcast use vstd::multiset::group_multiset_axioms;
                assert(self.heap@.to_multiset().count(x) <= before.to_multiset().count(x));
            }
            assert forall|a: usize, b: usize|
                #![trigger self.heap@.contains(a), self.heap@.contains(b)]
                self.heap@.contains(a) && self.heap@.contains(b) implies comparable(arena@, a, b) by {
                assert(before.contains(a));
                assert(before.contains(b));
            }
            if strict_on(arena@, before) {
                lemma_strict_same(arena@, before, self.heap@);
            }
        }
        self.sift_down(arena, 0);
        proof {
            broadcast use vstd::seq_lib::to_multiset_contains;
            broadcast use vstd::multiset::group_multiset_axioms;
            assert forall|x: usize| #[trigger] self.heap@.contains(x) implies before.contains(x) by {
                assert(self.heap@.to_multiset().count(x) <= before.to_multiset().count(x));
            }
        }
        Some(result)
    }

    /// Move the entry at `i` towards the leaves until neither child comes
    /// before it.
    fn sift_down(&mut self, arena: &Vec<SweepEvent>, i0: usize)
        requires
            i0 < old(self)@.len(),
            pairwise_comparable(arena@, old(self)@),
        ensures
            final(self)@.to_multiset() == old(self)@.to_multiset(),
            final(self)@.len() == old(self)@.len(),
            heap_down_except(arena@, old(self)@, i0 as int, false) ==> heap_ordered(arena@, final(self)@),
            heap_down_except(arena@, old(self)@, i0 as int, true) ==> heap_keyed(arena@, final(self)@),
            heap_down_except_ev(arena@, old(self)@, i0 as int) && strict_on(arena@, old(self)@) ==> heap_by_events(
                arena@,
                final(self)@,
            ),
    {
        let n = self.heap.len();
        let mut i = i0;
        let ghost start = self.heap@;
        let ghost ord = heap_down_except(arena@, start, i0 as int, false);
        let ghost key = heap_down_except(arena@, start, i0 as int, true);
        let ghost evo = heap_down_except_ev(arena@, start, i0 as int) && strict_on(arena@, start);
        loop
            invariant
                n == self.heap@.len(),
                n == start.len(),
                i < n,
                start == old(self)@,
                self.heap@.to_multiset() == start.to_multiset(),
                forall|x: usize| self.heap@.contains(x) <==> start.contains(x),
                pairwise_comparable(arena@, start),
                ord == heap_down_except(arena@, start, i0 as int, false),
                key == heap_down_except(arena@, start, i0 as int, true),
                ord ==> heap_down_except(arena@, self.heap@, i as int, false),
                key ==> heap_down_except(arena@, self.heap@, i as int, true),
                evo == (heap_down_except_ev(arena@, start, i0 as int) && strict_on(arena@, start)),
                evo ==> heap_down_except_ev(arena@, self.heap@, i as int) && strict_on(arena@, self.heap@),
            decreases n - i,
        {
            let l = if i < n / 2 { 2 * i + 1 } else { n };
            let r = if i < (n - 1) / 2 { 2 * i + 2 } else { n };
            let mut smallest = i;
            proof {
                assert(children(i as int, l as int, r as int, n as int));
                assert(self.heap@.contains(nth(self.heap@, i)));
                assert(start.contains(nth(self.heap@, i)));
                if l < n {
                    assert(self.heap@.contains(nth(self.heap@, l)));
                    assert(start.contains(nth(self.heap@, l)));
                }
                if r < n {
                    assert(self.heap@.contains(nth(self.heap@, r)));
                    assert(start.contains(nth(self.heap@, r)));
                }
            }
            let ghost s = self.heap@;
            if l < n && comes_before(arena, self.heap[l], self.heap[smallest]) {
                smallest = l;
            }
            let mid = smallest;
            if r < n && comes_before(arena, self.heap[r], self.heap[smallest]) {
                smallest = r;
            }
            proof {
                lemma_pick_first(arena@, s, i as int, l as int, r as int, mid as int, smallest as int, false);
                lemma_pick_first(arena@, s, i as int, l as int, r as int, mid as int, smallest as int, true);
                if evo {
                    lemma_pick_first_ev(arena@, s, i as int, l as int, r as int, mid as int, smallest as int);
                }
            }
            if smallest == i {
                proof {
                    if ord {
                        lemma_down_stop(arena@, s, i as int, l as int, r as int, false);
                    }
                    if key {
                        lemma_down_stop(arena@, s, i as int, l as int, r as int, true);
                    }
                    if evo {
                        lemma_down_stop_ev(arena@, s, i as int, l as int, r as int);
                    }
                }
                return;
            }
            let m = smallest;
            proof {
                if ord {
                    lemma_down_swap(arena@, s, i as int, l as int, r as int, m as int, false);
                }
                if key {
                    lemma_down_swap(arena@, s, i as int, l as int, r as int, m as int, true);
                }
                if evo {
                    lemma_down_swap_ev(arena@, s, i as int, l as int, r as int, m as int);
                }
            }
            self.swap_entries(i, m);
            proof {
                if evo {
                    lemma_strict_same(arena@, s, self.heap@);
                }
            }
            i = m;
        }
    }

    /// Move the entry at `i` towards the root while it comes before its
    /// parent.
    fn sift_up(&mut self, arena: &Vec<SweepEvent>, i0: usize)
        requires
            i0 < old(self)@.len(),
            pairwise_comparable(arena@, old(self)@),
        ensures
            final(self)@.to_multiset() == old(self)@.to_multiset(),
            final(self)@.len() == old(self)@.len(),
            heap_up_except(arena@, old(self)@, i0 as int, false) ==> heap_ordered(arena@, final(self)@),
            heap_up_except(arena@, old(self)@, i0 as int, true) ==> heap_keyed(arena@, final(self)@),
            heap_up_except_ev(arena@, old(self)@, i0 as int) && strict_on(arena@, old(self)@) ==> heap_by_events(
                arena@,
                final(self)@,
            ),
    {
        let mut i = i0;
        let ghost start = self.heap@;
        let ghost ord = heap_up_except(arena@, start, i0 as int, false);
        let ghost key = heap_up_except(arena@, start, i0 as int, true);
        let ghost evo = heap_up_except_ev(arena@, start, i0 as int) && strict_on(arena@, start);
        while i > 0
            invariant
                i < self.heap@.len(),
                start == old(self)@,
                self.heap@.len() == start.len(),
                self.heap@.to_multiset() == start.to_multiset(),
                forall|x: usize| self.heap@.contains(x) <==> start.contains(x),
                pairwise_comparable(arena@, start),
                ord == heap_up_except(arena@, start, i0 as int, false),
                key == heap_up_except(arena@, start, i0 as int, true),
                ord ==> heap_up_except(arena@, self.heap@, i as int, false),
                key ==> heap_up_except(arena@, self.heap@, i as int, true),
                evo == (heap_up_except_ev(arena@, start, i0 as int) && strict_on(arena@, start)),
                evo ==> heap_up_except_ev(arena@, self.heap@, i as int) && strict_on(arena@, self.heap@),
            ensures
                self.heap@.len() == start.len(),
                self.heap@.to_multiset() == start.to_multiset(),
                ord ==> heap_ordered(arena@, self.heap@),
                key ==> heap_keyed(arena@, self.heap@),
                evo ==> heap_by_events(arena@, self.heap@),
            decreases i,
        {
            let parent = (i - 1) / 2;
            proof {
                assert(self.heap@.contains(nth(self.heap@, i)));
                assert(self.heap@.contains(nth(self.heap@, parent)));
                assert(start.contains(nth(self.heap@, i)));
                assert(start.contains(nth(self.heap@, parent)));
                assert(comparable(arena@, nth(self.heap@, i), nth(self.heap@, parent)));
            }
            let ghost s = self.heap@;
            proof {
                lemma_order_queue_le(arena@, s[i as int], s[parent as int], false);
                lemma_order_queue_le(arena@, s[i as int], s[parent as int], true);
            }
            proof {
                if evo {
                    lemma_seq_has(s, i as int);
                    lemma_seq_has(s, parent as int);
                    lemma_before_ev(arena@, s, s[i as int], s[parent as int]);
                }
            }
            if comes_before(arena, self.heap[i], self.heap[parent]) {
                proof {
                    if ord {
                        lemma_up_swap(arena@, s, i as int, false);
                    }
                    if key {
                        lemma_up_swap(arena@, s, i as int, true);
                    }
                    if evo {
                        lemma_up_swap_ev(arena@, s, i as int);
                    }
                }
                self.swap_entries(i, parent);
                proof {
                    if evo {
                        lemma_strict_same(arena@, s, self.heap@);
                    }
                }
                i = parent;
            } else {
                proof {
                    if ord {
                        lemma_up_stop(arena@, s, i as int, false);
                    }
                    if key {
                        lemma_up_stop(arena@, s, i as int, true);
                    }
                    if evo {
                        lemma_up_stop_ev(arena@, s, i as int);
                    }
                }
                break;
            }
        }
        proof {
            if i == 0 {
                if ord {
                    lemma_up_stop(arena@, self.heap@, 0, false);
                }
                if key {
                    lemma_up_stop(arena@, self.heap@, 0, true);
                }
                if evo {
                    lemma_up_stop_ev(arena@, self.heap@, 0);
                }
            }
        }
    }

    /// Exchange the entries at `i` and `j`.
    fn swap_entries(&mut self, i: usize, j: usize)
        requires
            i < old(self)@.len(),
            j < old(self)@.len(),
        ensures
            final(self)@ == old(self)@.update(i as int, old(self)@[j as int]).update(j as int, old(self)@[i as int]),
            final(self)@.to_multiset() == old(self)@.to_multiset(),
            forall|x: usize| final(self)@.contains(x) <==> old(self)@.contains(x),
    {
        proof {
            lemma_swap_multiset(self.heap@, i as int, j as int);
        }
        let a = self.heap[i];
        let b = self.heap[j];
        self.heap.set(i, b);
        self.heap.set(j, a);
    }
}

} // verus!
