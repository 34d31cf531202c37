//! The main sweep: pops events in queue order, keeps the sweep line in
//! step, tests segments that become neighbours for intersections, and
//! classifies the events on the line. Returns every popped event index in
//! popping order.
use crate::compute_fields::{classified, compute_fields, lemma_classified_keeps};
use crate::event_queue::{heap_ordered, lemma_heap_frame, EventQueue};
use crate::fill_queue::index_range;
use crate::operation::Operation;
use crate::possible_intersection::{intersection_outcome, possible_intersection};
use crate::segment_weight::arena_weight;
use crate::split_progress::{keeps_flags, lemma_outcome_progress, lemma_spanned_self, lemma_spanned_trans, progress, spanned};
use crate::sweep_event::{ev, indices_in, insert_at, lemma_wf_linked, nth, output_ready, peer, wf_arena, wf_event, SweepEvent};
use crate::sweep_line::{line_comparable, SweepLine};
use crate::types::BBox;
use vstd::prelude::*;
use vstd::multiset::Multiset;

verus! {

/// Whether the sweep stops after popping an event at `x`: past the smaller
/// of the two right bounds for intersection, past the subject's right
/// bound for difference. No later event can add to those results.
pub open spec fn past_bound(operation: Operation, sbbox: BBox, cbbox: BBox, x: i32) -> bool {
    ||| operation == Operation::Intersection && x > (if sbbox[2] < cbbox[2] {
        sbbox[2]
    } else {
        cbbox[2]
    })
    ||| operation == Operation::Difference && x > sbbox[2]
}

/// Every right event of `s` has its peer in `s`.
pub open spec fn pairs_closed(arena: Seq<SweepEvent>, s: Seq<usize>) -> bool {
    forall|k: int|
        0 <= k < s.len() && !(#[trigger] arena[s[k] as int]).left ==> s.contains(peer(arena, s[k]))
}

/// The sweep-line entries are left events of the arena.
pub open spec fn line_entries_ok(arena: Seq<SweepEvent>, line: Seq<usize>) -> bool {
    forall|k: int| 0 <= k < line.len() ==> (#[trigger] line[k]) < arena.len() && arena[line[k] as int].left
}

/// The sweep-line entries are popped, each once, and their right events
/// are not popped yet.
pub open spec fn line_open(arena: Seq<SweepEvent>, line: Seq<usize>, popped: Seq<usize>) -> bool {
    &&& forall|k: int|
        0 <= k < line.len() ==> popped.contains(#[trigger] line[k]) && !popped.contains(peer(arena, line[k]))
    &&& forall|k1: int, k2: int|
        0 <= k1 < line.len() && 0 <= k2 < line.len() && k1 != k2 ==> #[trigger] line[k1] != #[trigger] line[k2]
}

/// What every step of the sweep keeps.
pub open spec fn sweep_inv(arena: Seq<SweepEvent>, queue: Seq<usize>, line: Seq<usize>) -> bool {
    &&& wf_arena(arena)
    &&& arena.len() <= usize::MAX
    &&& indices_in(arena, queue)
    &&& line_entries_ok(arena, line)
}

/// The queue at the start of a sweep: every event once, in heap order,
/// none assigned to an output contour.
pub open spec fn sweep_start(arena: Seq<SweepEvent>, queue: Seq<usize>) -> bool {
    &&& heap_ordered(arena, queue)
    &&& output_ready(arena)
    &&& queue.to_multiset() == index_range(0, arena.len() as int).to_multiset()
}

/// What a sweep that started from [`sweep_start`] keeps: the queue in heap
/// order, each event either popped or queued (once), right events popped
/// only after their left events, and the line holding popped left events
/// whose right events are still queued.
pub open spec fn sweep_order(arena: Seq<SweepEvent>, queue: Seq<usize>, line: Seq<usize>, popped: Seq<usize>) -> bool {
    &&& heap_ordered(arena, queue)
    &&& output_ready(arena)
    &&& popped.to_multiset().add(queue.to_multiset()) == index_range(0, arena.len() as int).to_multiset()
    &&& pairs_closed(arena, popped)
    &&& line_open(arena, line, popped)
}

/// The old events keep their points and sides, and every new event lies in
/// the bounding box of the old ones.
pub open spec fn keeps_points(a0: Seq<SweepEvent>, a1: Seq<SweepEvent>) -> bool {
    &&& a1.len() >= a0.len()
    &&& forall|i: int| 0 <= i < a0.len() ==> (#[trigger] a1[i]).point == a0[i].point && a1[i].left == a0[i].left
    &&& forall|i: int| a0.len() <= i < a1.len() ==> spanned(a0, #[trigger] a1[i].point)
}

/// Keeping points is transitive.
pub proof fn lemma_keeps_trans(a0: Seq<SweepEvent>, a1: Seq<SweepEvent>, a2: Seq<SweepEvent>)
    requires
        keeps_points(a0, a1),
        keeps_points(a1, a2),
    ensures
        keeps_points(a0, a2),
{
    assert forall|i: int| 0 <= i < a1.len() implies spanned(a0, #[trigger] a1[i].point) by {
        if i < a0.len() {
            lemma_spanned_self(a0, i);
        }
    }
    assert forall|i: int| a0.len() <= i < a2.len() implies spanned(a0, #[trigger] a2[i].point) by {
        if i < a1.len() {
            assert(a2[i].point == a1[i].point);
        } else {
            lemma_spanned_trans(a0, a1, a2[i].point);
        }
    }
}

/// The termination measure of the sweep does not grow: the arena weight
/// drops, or stays with the arena and the queue length unchanged.
pub open spec fn step_ok(a0: Seq<SweepEvent>, q0: Seq<usize>, a1: Seq<SweepEvent>, q1: Seq<usize>) -> bool {
    ||| (a1.len() == a0.len() && arena_weight(a1) == arena_weight(a0) && q1.len() == q0.len())
    ||| arena_weight(a1) < arena_weight(a0)
}

/// The indices `lo..hi` occur once each in their range.
pub proof fn lemma_range_count(lo: int, hi: int, x: usize)
    requires
        0 <= lo <= hi <= usize::MAX + 1,
    ensures
        index_range(lo, hi).to_multiset().count(x) == (if lo <= x < hi { 1nat } else { 0nat }),
    decreases hi - lo,
{
    broadcast use vstd::seq_lib::group_to_multiset_ensures;
    broadcast use vstd::multiset::group_multiset_axioms;

    if lo == hi {
        assert(index_range(lo, hi).len() == 0);
    } else {
        lemma_range_count(lo, hi - 1, x);
        assert(index_range(lo, hi) =~= index_range(lo, hi - 1).push((hi - 1) as usize));
        vstd::seq_lib::to_multiset_build(index_range(lo, hi - 1), (hi - 1) as usize);
    }
}

/// Consecutive ranges of indices join.
pub proof fn lemma_range_join(lo: int, mid: int, hi: int)
    requires
        lo <= mid <= hi,
    ensures
        index_range(lo, mid).to_multiset().add(index_range(mid, hi).to_multiset()) == index_range(
            lo,
            hi,
        ).to_multiset(),
{
    assert(index_range(lo, hi) =~= index_range(lo, mid) + index_range(mid, hi));
    vstd::seq_lib::lemma_multiset_commutative(index_range(lo, mid), index_range(mid, hi));
}

/// In a partition of `0..n` into popped and queued indices, each index
/// below `n` is in exactly one part, once, and no other index is in
/// either.
pub proof fn lemma_partition_member(popped: Seq<usize>, queue: Seq<usize>, n: int, x: usize)
    requires
        0 <= n <= usize::MAX + 1,
        popped.to_multiset().add(queue.to_multiset()) == index_range(0, n).to_multiset(),
    ensures
        x < n ==> (popped.contains(x) <==> !queue.contains(x)),
        x >= n ==> !popped.contains(x) && !queue.contains(x),
        popped.to_multiset().count(x) <= 1,
        queue.to_multiset().count(x) <= 1,
{
    broadcast use vstd::seq_lib::to_multiset_contains;
    broadcast use vstd::multiset::group_multiset_axioms;

    lemma_range_count(0, n, x);
    assert(popped.to_multiset().count(x) + queue.to_multiset().count(x) == index_range(0, n).to_multiset().count(x));
}


/// Classifying an event keeps every sweep invariant and the measure.
pub proof fn lemma_classify_step(a: Seq<SweepEvent>, event: usize, prev: Option<usize>, operation: Operation, queue: Seq<usize>, line: Seq<usize>, popped: Seq<usize>)
    requires
        sweep_inv(a, queue, line),
        event < a.len(),
        prev matches Some(p) ==> p < a.len(),
    ensures
        ({
            let c = classified(a, event, prev, operation);
            &&& sweep_inv(c, queue, line)
            &&& c.len() == a.len()
            &&& arena_weight(c) == arena_weight(a)
            &&& keeps_points(a, c)
            &&& (sweep_order(a, queue, line, popped) ==> sweep_order(c, queue, line, popped))
        }),
{
    let c = classified(a, event, prev, operation);
    if let Some(p) = prev {
        assert(wf_event(a, p));
    }
    lemma_classified_keeps(a, event, prev, operation);
    assert(forall|i: int| 0 <= i < a.len() ==> (#[trigger] c[i]).other_event == a[i].other_event);
    if sweep_order(a, queue, line, popped) {
        assert forall|k: int| 0 <= k < queue.len() implies c[#[trigger] queue[k] as int].point == a[queue[k] as int].point by {
            assert(queue[k] < a.len());
        }
        lemma_heap_frame(a, c, queue);
        assert forall|k: int| 0 <= k < popped.len() && !(#[trigger] c[popped[k] as int]).left implies popped.contains(peer(c, popped[k])) by {
            lemma_partition_member(popped, queue, a.len() as int, popped[k]);
            assert(popped.contains(popped[k]));
        }
        assert forall|k: int| 0 <= k < line.len() implies popped.contains(#[trigger] line[k]) && !popped.contains(peer(c, line[k])) by {
            assert(line[k] < a.len());
        }
    }
}

/// One intersection test of two line entries keeps every sweep invariant
/// and does not grow the measure.
pub proof fn lemma_test_step(a: Seq<SweepEvent>, out: Seq<SweepEvent>, q: Seq<usize>, q2: Seq<usize>, line: Seq<usize>, popped: Seq<usize>, se1: usize, se2: usize)
    requires
        sweep_inv(a, q, line),
        se1 < a.len(),
        se2 < a.len(),
        a[se1 as int].left,
        a[se2 as int].left,
        out == intersection_outcome(a, se1, se2).0,
        out.len() <= usize::MAX,
        q2.to_multiset() == q.to_multiset().add(index_range(a.len() as int, out.len() as int).to_multiset()),
        indices_in(out, q2),
        heap_ordered(a, q) ==> heap_ordered(out, q2),
    ensures
        sweep_inv(out, q2, line),
        keeps_points(a, out),
        step_ok(a, q, out, q2),
        keeps_flags(a, out),
        (sweep_order(a, q, line, popped) && line.contains(se1) && line.contains(se2)) ==> sweep_order(out, q2, line, popped),
{
    broadcast use vstd::seq_lib::group_to_multiset_ensures;
    broadcast use vstd::multiset::group_multiset_axioms;

    lemma_outcome_progress(a, se1, se2);
    reveal(progress);
    let n = a.len() as int;
    assert forall|k: int| 0 <= k < line.len() implies (#[trigger] line[k]) < out.len() && out[line[k] as int].left by {
        assert(line[k] < a.len());
    }
    if out.len() == a.len() {
        assert(index_range(n, n).to_multiset() =~= Multiset::empty()) by {
            assert(index_range(n, n).len() == 0);
        }
        assert(q2.to_multiset() =~= q.to_multiset());
        assert(q2.len() == q2.to_multiset().len());
        assert(q.len() == q.to_multiset().len());
    }
    if sweep_order(a, q, line, popped) && line.contains(se1) && line.contains(se2) {
        let k1 = choose|k: int| 0 <= k < line.len() && line[k] == se1;
        let k2 = choose|k: int| 0 <= k < line.len() && line[k] == se2;
        assert(!popped.contains(peer(a, line[k1])));
        assert(!popped.contains(peer(a, line[k2])));
        lemma_range_join(0, n, out.len() as int);
        assert(popped.to_multiset().add(q2.to_multiset()) =~= index_range(0, out.len() as int).to_multiset());
        assert forall|k: int| 0 <= k < popped.len() && !(#[trigger] out[popped[k] as int]).left implies popped.contains(peer(out, popped[k])) by {
            let x = popped[k];
            assert(popped.contains(x));
            lemma_partition_member(popped, q, n, x);
            assert(!a[x as int].left);
            if x == se1 || x == se2 {
            } else if out[x as int].other_event == a[x as int].other_event {
            } else {
                assert(x == peer(a, se1) || x == peer(a, se2));
            }
        }
        assert forall|k: int| 0 <= k < line.len() implies popped.contains(#[trigger] line[k]) && !popped.contains(peer(out, line[k])) by {
            let y = line[k];
            assert(y < a.len());
            if out[y as int].other_event != a[y as int].other_event {
                lemma_partition_member(popped, q, n, peer(out, y));
            }
        }
    }
}


/// The queue gained exactly the events appended to the arena.
pub open spec fn queue_grew(q0: Seq<usize>, a0: Seq<SweepEvent>, q1: Seq<usize>, a1: Seq<SweepEvent>) -> bool {
    q1.to_multiset() == q0.to_multiset().add(index_range(a0.len() as int, a1.len() as int).to_multiset())
}

/// A queue that did not change gained the events of an arena that did not
/// grow.
proof fn lemma_queue_same(q: Seq<usize>, a: Seq<SweepEvent>)
    ensures
        queue_grew(q, a, q, a),
{
    crate::fill_queue::lemma_add_empty_range(q.to_multiset(), a.len() as int);
}

/// The sweep line after inserting a popped left event whose right event
/// is still queued.
proof fn lemma_line_inserted(arena: Seq<SweepEvent>, queue: Seq<usize>, l0: Seq<usize>, line: Seq<usize>, position: usize, event_idx: usize, popped: Seq<usize>, ok: bool)
    requires
        line_entries_ok(arena, l0),
        position <= l0.len(),
        line == crate::sweep_event::insert_at(l0, position, event_idx),
        event_idx < arena.len(),
        arena[event_idx as int].left,
        ok ==> sweep_order(arena, queue, l0, popped),
        ok ==> popped.contains(event_idx) && !popped.contains(peer(arena, event_idx)) && !l0.contains(event_idx),
    ensures
        line_entries_ok(arena, line),
        line[position as int] == event_idx,
        line.len() == l0.len() + 1,
        position > 0 ==> line[position - 1] == l0[position - 1],
        position < l0.len() ==> line[position + 1] == l0[position as int],
        ok ==> sweep_order(arena, queue, line, popped),
{
    assert forall|k: int| 0 <= k < line.len() implies (#[trigger] line[k]) < arena.len() && arena[line[k] as int].left by {
        if k < position {
            assert(line[k] == l0[k]);
        } else if k > position {
            assert(line[k] == l0[k - 1]);
        }
    }
    if ok {
        assert forall|k: int| 0 <= k < line.len() implies popped.contains(#[trigger] line[k]) && !popped.contains(peer(arena, line[k])) by {
            if k < position {
                assert(line[k] == l0[k]);
            } else if k > position {
                assert(line[k] == l0[k - 1]);
            }
        }
        assert forall|k1: int, k2: int|
            0 <= k1 < line.len() && 0 <= k2 < line.len() && k1 != k2 implies #[trigger] line[k1] != #[trigger] line[k2] by {
            if k1 != position && k2 != position {
                let j1 = if k1 < position { k1 } else { k1 - 1 };
                let j2 = if k2 < position { k2 } else { k2 - 1 };
                assert(line[k1] == l0[j1]);
                assert(line[k2] == l0[j2]);
            } else if k1 == position {
                let j2 = if k2 < position { k2 } else { k2 - 1 };
                assert(line[k2] == l0[j2]);
                assert(l0.contains(l0[j2]));
            } else {
                let j1 = if k1 < position { k1 } else { k1 - 1 };
                assert(line[k1] == l0[j1]);
                assert(l0.contains(l0[j1]));
            }
        }
    }
}

/// Every line entry can be ordered against a new event.
proof fn lemma_line_comparable(arena: Seq<SweepEvent>, line: Seq<usize>, idx: usize)
    requires
        wf_arena(arena),
        line_entries_ok(arena, line),
        idx < arena.len(),
    ensures
        line_comparable(arena, line, idx),
{
    assert forall|k: int| 0 <= k < line.len() implies #[trigger] crate::compare_segments::segments_comparable(arena, line[k], idx) by {
        assert(wf_event(arena, line[k]));
        assert(wf_event(arena, idx));
    }
}

/// Chaining two steps of the sweep.
proof fn lemma_compose(a0: Seq<SweepEvent>, q0: Seq<usize>, a1: Seq<SweepEvent>, q1: Seq<usize>, a2: Seq<SweepEvent>, q2: Seq<usize>)
    requires
        keeps_points(a0, a1),
        step_ok(a0, q0, a1, q1),
        q1.to_multiset() == q0.to_multiset().add(index_range(a0.len() as int, a1.len() as int).to_multiset()),
        keeps_points(a1, a2),
        step_ok(a1, q1, a2, q2),
        q2.to_multiset() == q1.to_multiset().add(index_range(a1.len() as int, a2.len() as int).to_multiset()),
    ensures
        keeps_points(a0, a2),
        step_ok(a0, q0, a2, q2),
        q2.to_multiset() == q0.to_multiset().add(index_range(a0.len() as int, a2.len() as int).to_multiset()),
        queue_grew(q0, a0, q2, a2),
{
    broadcast use vstd::multiset::group_multiset_axioms;

    lemma_keeps_trans(a0, a1, a2);
    lemma_range_join(a0.len() as int, a1.len() as int, a2.len() as int);
    assert(q2.to_multiset() =~= q0.to_multiset().add(index_range(a0.len() as int, a2.len() as int).to_multiset()));
}

/// The history of the sweep after one more step: old events keep their
/// points, and every event is popped or queued.
proof fn lemma_history(a0: Seq<SweepEvent>, q0: Seq<usize>, s: Seq<usize>, a2: Seq<SweepEvent>, q2: Seq<usize>, a3: Seq<SweepEvent>, q3: Seq<usize>)
    requires
        keeps_points(a0, a2),
        s.to_multiset().add(q2.to_multiset()) == q0.to_multiset().add(index_range(a0.len() as int, a2.len() as int).to_multiset()),
        keeps_points(a2, a3),
        queue_grew(q2, a2, q3, a3),
    ensures
        keeps_points(a0, a3),
        s.to_multiset().add(q3.to_multiset()) == q0.to_multiset().add(index_range(a0.len() as int, a3.len() as int).to_multiset()),
{
    broadcast use vstd::multiset::group_multiset_axioms;

    lemma_keeps_trans(a0, a2, a3);
    lemma_range_join(a0.len() as int, a2.len() as int, a3.len() as int);
    let r02 = index_range(a0.len() as int, a2.len() as int).to_multiset();
    let r23 = index_range(a2.len() as int, a3.len() as int).to_multiset();
    let r03 = index_range(a0.len() as int, a3.len() as int).to_multiset();
    assert(q3.to_multiset() == q2.to_multiset().add(r23));
    assert(r02.add(r23) == r03);
    assert forall|x: usize| s.to_multiset().add(q3.to_multiset()).count(x) == q0.to_multiset().add(r03).count(x) by {
        assert(s.to_multiset().add(q2.to_multiset()).count(x) == q0.to_multiset().add(r02).count(x));
        assert(r02.add(r23).count(x) == r03.count(x));
        assert(q2.to_multiset().add(r23).count(x) == q3.to_multiset().count(x));
    }
    assert(s.to_multiset().add(q3.to_multiset()) =~= q0.to_multiset().add(r03));
}

/// Membership after a push.
pub proof fn lemma_push_contains(s: Seq<usize>, e: usize, x: usize)
    ensures
        s.push(e).contains(x) <==> (s.contains(x) || x == e),
{
    if s.contains(x) {
        let j = choose|j: int| 0 <= j < s.len() && s[j] == x;
        assert(s.push(e)[j] == x);
    }
    if x == e {
        assert(s.push(e)[s.len() as int] == e);
    }
    if s.push(e).contains(x) {
        let j = choose|j: int| 0 <= j < s.push(e).len() && s.push(e)[j] == x;
        if j < s.len() {
            assert(s[j] == x);
        }
    }
}

/// Classify `idx` against its predecessor `prev`; see
/// [`compute_fields`].
fn classify_event(
    arena: &mut Vec<SweepEvent>,
    idx: usize,
    prev: Option<usize>,
    operation: Operation,
    Ghost(queue): Ghost<Seq<usize>>,
    Ghost(line): Ghost<Seq<usize>>,
    Ghost(popped): Ghost<Seq<usize>>,
)
    requires
        sweep_inv(old(arena)@, queue, line),
        idx < old(arena)@.len(),
        prev matches Some(p) ==> p < old(arena)@.len(),
    ensures
        final(arena)@ == classified(old(arena)@, idx, prev, operation),
        sweep_inv(final(arena)@, queue, line),
        keeps_points(old(arena)@, final(arena)@),
        step_ok(old(arena)@, queue, final(arena)@, queue),
        queue.to_multiset() == queue.to_multiset().add(index_range(old(arena)@.len() as int, final(arena)@.len() as int).to_multiset()),
        sweep_order(old(arena)@, queue, line, popped) ==> sweep_order(final(arena)@, queue, line, popped),
{
    proof {
        lemma_classify_step(arena@, idx, prev, operation, queue, line, popped);
        if let Some(p) = prev {
            assert(wf_event(arena@, p));
        }
        crate::fill_queue::lemma_add_empty_range(queue.to_multiset(), arena@.len() as int);
    }
    compute_fields(arena, idx, prev, operation);
}

/// Test the line entries `se1` and `se2` for intersection; see
/// [`possible_intersection`].
fn test_neighbours(
    arena: &mut Vec<SweepEvent>,
    queue: &mut EventQueue,
    se1: usize,
    se2: usize,
    Ghost(line): Ghost<Seq<usize>>,
    Ghost(popped): Ghost<Seq<usize>>,
) -> (r: i32)
    requires
        sweep_inv(old(arena)@, old(queue)@, line),
        se1 < old(arena)@.len(),
        se2 < old(arena)@.len(),
        old(arena)@[se1 as int].left,
        old(arena)@[se2 as int].left,
    ensures
        r == intersection_outcome(old(arena)@, se1, se2).1,
        final(arena)@ == intersection_outcome(old(arena)@, se1, se2).0,
        keeps_flags(old(arena)@, final(arena)@),
        sweep_inv(final(arena)@, final(queue)@, line),
        keeps_points(old(arena)@, final(arena)@),
        step_ok(old(arena)@, old(queue)@, final(arena)@, final(queue)@),
        final(queue)@.to_multiset() == old(queue)@.to_multiset().add(index_range(old(arena)@.len() as int, final(arena)@.len() as int).to_multiset()),
        (sweep_order(old(arena)@, old(queue)@, line, popped) && line.contains(se1) && line.contains(se2))
            ==> sweep_order(final(arena)@, final(queue)@, line, popped),
{
    let ghost a0 = arena@;
    let ghost q0 = queue@;
    proof {
        lemma_wf_linked(arena@);
    }
    let r = possible_intersection(arena, queue, se1, se2);
    let len_after = arena.len();
    proof {
        assert(arena@.len() == len_after);
        lemma_test_step(a0, arena@, q0, queue@, line, popped, se1, se2);
    }
    r
}


/// The classification of an event: its in/out flags, the result event
/// below it and its result transition.
pub open spec fn same_flags(x: SweepEvent, y: SweepEvent) -> bool {
    &&& x.in_out == y.in_out
    &&& x.other_in_out == y.other_in_out
    &&& x.prev_in_result == y.prev_in_result
    &&& x.result_transition == y.result_transition
}

/// The entry just below position `pos` of a sweep line, if any.
pub open spec fn below_entry(line: Seq<usize>, pos: int) -> Option<usize> {
    if pos > 0 {
        Some(line[pos - 1])
    } else {
        None
    }
}

/// Insert the left event `event_idx` in the sweep line, classify it
/// against the entry just below it, and test it against its new
/// neighbours (reclassifying after an overlap that changes edge types).
///
/// Returns where the event went and the arena in which it was last
/// classified: its final classification is the one computed there against
/// the entry below it.
#[verifier::rlimit(60)]
#[verifier::spinoff_prover]
fn sweep_line_insert_path(
    arena: &mut Vec<SweepEvent>,
    queue: &mut EventQueue,
    sweep_line: &mut SweepLine,
    event_idx: usize,
    operation: Operation,
    Ghost(popped): Ghost<Seq<usize>>,
    Ghost(ok): Ghost<bool>,
) -> (res: (Ghost<int>, Ghost<Seq<SweepEvent>>))
    requires
        sweep_inv(old(arena)@, old(queue)@, old(sweep_line)@),
        event_idx < old(arena)@.len(),
        ev(old(arena)@, event_idx).left,
        ok ==> sweep_order(old(arena)@, old(queue)@, old(sweep_line)@, popped),
        ok ==> popped.contains(event_idx) && !popped.contains(peer(old(arena)@, event_idx))
            && !old(sweep_line)@.contains(event_idx),
    ensures
        sweep_inv(final(arena)@, final(queue)@, final(sweep_line)@),
        keeps_points(old(arena)@, final(arena)@),
        step_ok(old(arena)@, old(queue)@, final(arena)@, final(queue)@),
        queue_grew(old(queue)@, old(arena)@, final(queue)@, final(arena)@),
        ok ==> sweep_order(final(arena)@, final(queue)@, final(sweep_line)@, popped),
        0 <= res.0@ <= old(sweep_line)@.len(),
        final(sweep_line)@ == insert_at(old(sweep_line)@, res.0@ as usize, event_idx),
        ok ==> same_flags(
            final(arena)@[event_idx as int],
            classified(res.1@, event_idx, below_entry(old(sweep_line)@, res.0@), operation)[event_idx as int],
        ),
{
    let ghost a0 = arena@;
    let ghost q0 = queue@;
    let ghost l0 = sweep_line@;
    proof {
        lemma_line_comparable(arena@, l0, event_idx);
    }
    let position = sweep_line.insert(arena, event_idx);
    let ghost line = sweep_line@;
    proof {
        lemma_line_inserted(arena@, queue@, l0, line, position, event_idx, popped, ok);
    }
    let prev_event = sweep_line.prev(position);
    let next_event = sweep_line.next(position);
    proof {
        lemma_queue_same(q0, a0);
        assert(prev_event == below_entry(l0, position as int));
        if ok {
            assert(line[position as int] == event_idx);
            if let Some(nx) = next_event {
                assert(nx == line[position + 1]);
                assert(nx != event_idx);
            }
            if let Some(pv) = prev_event {
                assert(pv == line[position - 1]);
                assert(pv != event_idx);
            }
        }
    }
    let ghost mut ac = arena@;
    classify_event(arena, event_idx, prev_event, operation, Ghost(queue@), Ghost(line), Ghost(popped));
    if let Some(next) = next_event {
        let ghost a1 = arena@;
        let ghost q1 = queue@;
        proof {
            assert(line.contains(nth(line, position)));
            assert(line.contains(line[position + 1]));
        }
        let code = test_neighbours(arena, queue, event_idx, next, Ghost(line), Ghost(popped));
        proof {
            lemma_compose(a0, q0, a1, q1, arena@, queue@);
        }
        if code == 2 {
            let ghost a2 = arena@;
            proof {
                ac = arena@;
            }
            classify_event(arena, event_idx, prev_event, operation, Ghost(queue@), Ghost(line), Ghost(popped));
            proof {
                lemma_compose(a0, q0, a2, queue@, arena@, queue@);
            }
            let ghost a3 = arena@;
            classify_event(arena, next, Some(event_idx), operation, Ghost(queue@), Ghost(line), Ghost(popped));
            proof {
                lemma_compose(a0, q0, a3, queue@, arena@, queue@);
            }
        }
    }
    proof {
        if ok {
            assert(same_flags(arena@[event_idx as int], classified(ac, event_idx, prev_event, operation)[event_idx as int]));
        }
    }
    if let Some(prev) = prev_event {
        let ghost a1 = arena@;
        let ghost q1 = queue@;
        proof {
            assert(line.contains(nth(line, position)));
            assert(line.contains(line[position - 1]));
        }
        let code = test_neighbours(arena, queue, prev, event_idx, Ghost(line), Ghost(popped));
        proof {
            lemma_compose(a0, q0, a1, q1, arena@, queue@);
        }
        if code == 2 {
            let prevprev_event = if position >= 2 {
                sweep_line.at(position - 2)
            } else {
                None
            };
            let ghost a2 = arena@;
            classify_event(arena, prev, prevprev_event, operation, Ghost(queue@), Ghost(line), Ghost(popped));
            proof {
                lemma_compose(a0, q0, a2, queue@, arena@, queue@);
            }
            let ghost a3 = arena@;
            proof {
                ac = arena@;
            }
            classify_event(arena, event_idx, Some(prev), operation, Ghost(queue@), Ghost(line), Ghost(popped));
            proof {
                lemma_compose(a0, q0, a3, queue@, arena@, queue@);
            }
        }
    }
    (Ghost(position as int), Ghost(ac))
}

/// The sweep line right after popping the right event `r`: its left event
/// may still be on the line.
pub open spec fn line_open_except(arena: Seq<SweepEvent>, line: Seq<usize>, popped: Seq<usize>, r: usize) -> bool {
    &&& forall|k: int|
        0 <= k < line.len() ==> popped.contains(#[trigger] line[k]) && (peer(arena, line[k]) == r
            || !popped.contains(peer(arena, line[k])))
    &&& forall|k1: int, k2: int|
        0 <= k1 < line.len() && 0 <= k2 < line.len() && k1 != k2 ==> #[trigger] line[k1] != #[trigger] line[k2]
}

/// What the sweep keeps right after popping the right event `r`.
pub open spec fn removal_ready(arena: Seq<SweepEvent>, queue: Seq<usize>, line: Seq<usize>, popped: Seq<usize>, r: usize) -> bool {
    &&& heap_ordered(arena, queue)
    &&& output_ready(arena)
    &&& popped.to_multiset().add(queue.to_multiset()) == index_range(0, arena.len() as int).to_multiset()
    &&& pairs_closed(arena, popped)
    &&& popped.contains(r)
    &&& line_open_except(arena, line, popped, r)
}

/// Once the left event of a popped right event `r` is off the line, the
/// line is open again.
proof fn lemma_line_removed(arena: Seq<SweepEvent>, line: Seq<usize>, line2: Seq<usize>, position: int, r: usize, popped: Seq<usize>)
    requires
        wf_arena(arena),
        arena.len() <= usize::MAX,
        line_entries_ok(arena, line),
        r < arena.len(),
        0 <= position < line.len(),
        line[position] == peer(arena, r),
        line2 == line.remove(position),
    ensures
        line_entries_ok(arena, line2),
        position > 0 ==> line2[position - 1] == line[position - 1],
        position + 1 < line.len() ==> line2[position] == line[position + 1],
        line_open_except(arena, line, popped, r) ==> line_open(arena, line2, popped),
{
    assert forall|k: int| 0 <= k < line2.len() implies (#[trigger] line2[k]) < arena.len() && arena[line2[k] as int].left by {
        if k < position {
            assert(line2[k] == line[k]);
        } else {
            assert(line2[k] == line[k + 1]);
        }
    }
    if line_open_except(arena, line, popped, r) {
        assert forall|k: int| 0 <= k < line2.len() implies popped.contains(#[trigger] line2[k]) && !popped.contains(peer(arena, line2[k])) by {
            let j = if k < position { k } else { k + 1 };
            assert(line2[k] == line[j]);
            assert(line[j] != line[position]);
            let y = line[j];
            assert(wf_event(arena, y));
            assert(wf_event(arena, r));
        }
        assert forall|k1: int, k2: int|
            0 <= k1 < line2.len() && 0 <= k2 < line2.len() && k1 != k2 implies #[trigger] line2[k1] != #[trigger] line2[k2] by {
            let j1 = if k1 < position { k1 } else { k1 + 1 };
            let j2 = if k2 < position { k2 } else { k2 + 1 };
            assert(line2[k1] == line[j1]);
            assert(line2[k2] == line[j2]);
        }
    }
}

/// Where the left event of a popped right event `r` is not on the line,
/// the line is open.
proof fn lemma_line_unchanged(arena: Seq<SweepEvent>, line: Seq<usize>, r: usize, popped: Seq<usize>)
    requires
        wf_arena(arena),
        arena.len() <= usize::MAX,
        line_entries_ok(arena, line),
        r < arena.len(),
        !line.contains(peer(arena, r)),
        line_open_except(arena, line, popped, r),
    ensures
        line_open(arena, line, popped),
{
    assert forall|k: int| 0 <= k < line.len() implies popped.contains(#[trigger] line[k]) && !popped.contains(peer(arena, line[k])) by {
        let y = line[k];
        assert(wf_event(arena, y));
        assert(wf_event(arena, r));
        if peer(arena, y) == r {
            assert(line.contains(line[k]));
        }
    }
}

/// Process a right event: take its left event off the sweep line, and test
/// the two segments that become neighbours.
fn sweep_line_remove_path(
    arena: &mut Vec<SweepEvent>,
    queue: &mut EventQueue,
    sweep_line: &mut SweepLine,
    event_idx: usize,
    Ghost(popped): Ghost<Seq<usize>>,
    Ghost(ok): Ghost<bool>,
)
    requires
        sweep_inv(old(arena)@, old(queue)@, old(sweep_line)@),
        event_idx < old(arena)@.len(),
        !ev(old(arena)@, event_idx).left,
        ok ==> removal_ready(old(arena)@, old(queue)@, old(sweep_line)@, popped, event_idx),
    ensures
        sweep_inv(final(arena)@, final(queue)@, final(sweep_line)@),
        keeps_points(old(arena)@, final(arena)@),
        step_ok(old(arena)@, old(queue)@, final(arena)@, final(queue)@),
        queue_grew(old(queue)@, old(arena)@, final(queue)@, final(arena)@),
        ok ==> sweep_order(final(arena)@, final(queue)@, final(sweep_line)@, popped),
{
    let ghost a0 = arena@;
    let ghost q0 = queue@;
    let ghost l0 = sweep_line@;
    proof {
        lemma_queue_same(q0, a0);
        assert(wf_event(a0, event_idx));
    }
    let left_event_idx = match arena[event_idx].other_event {
        Some(j) => j,
        None => {
            return;
        },
    };
    proof {
        lemma_line_comparable(arena@, l0, left_event_idx);
    }
    let position = match sweep_line.position(arena, left_event_idx) {
        Some(p) => p,
        None => {
            proof {
                if ok {
                    lemma_line_unchanged(a0, l0, event_idx, popped);
                }
            }
            return;
        },
    };
    let prev_event = sweep_line.prev(position);
    let next_event = sweep_line.next(position);
    sweep_line.remove_at(position);
    let ghost line = sweep_line@;
    proof {
        lemma_line_removed(a0, l0, line, position as int, event_idx, popped);
    }
    if let (Some(prev), Some(next)) = (prev_event, next_event) {
        proof {
            assert(line.contains(line[position - 1]));
            assert(line.contains(line[position as int]));
        }
        let _ = test_neighbours(arena, queue, prev, next, Ghost(line), Ghost(popped));
        proof {
            lemma_queue_same(q0, a0);
            lemma_compose(a0, q0, a0, q0, arena@, queue@);
        }
    }
}

/// Popping the front of a heap-ordered queue keeps right events behind
/// their left events.
proof fn lemma_pop_closed(arena: Seq<SweepEvent>, q1: Seq<usize>, sorted: Seq<usize>)
    requires
        wf_arena(arena),
        arena.len() <= usize::MAX,
        indices_in(arena, q1),
        q1.len() > 0,
        forall|k: int| 0 <= k < q1.len() ==> crate::sweep_event::lex_le(arena[q1[0] as int].point, #[trigger] arena[q1[k] as int].point),
        sorted.to_multiset().add(q1.to_multiset()) == index_range(0, arena.len() as int).to_multiset(),
        pairs_closed(arena, sorted),
    ensures
        !sorted.contains(q1[0]),
        pairs_closed(arena, sorted.push(q1[0])),
        !arena[q1[0] as int].left ==> sorted.contains(peer(arena, q1[0])),
        arena[q1[0] as int].left ==> !sorted.contains(peer(arena, q1[0])),
{
    let e = q1[0];
    let n = arena.len() as int;
    assert(q1.contains(e));
    lemma_partition_member(sorted, q1, n, e);
    assert(wf_event(arena, e));
    let o = peer(arena, e);
    assert(wf_event(arena, o));
    lemma_partition_member(sorted, q1, n, o);
    if !arena[e as int].left {
        if !sorted.contains(o) {
            let k = choose|k: int| 0 <= k < q1.len() && q1[k] == o;
            assert(crate::sweep_event::lex_le(arena[e as int].point, arena[q1[k] as int].point));
        }
    } else {
        if sorted.contains(o) {
            let k = choose|k: int| 0 <= k < sorted.len() && sorted[k] == o;
            assert(!arena[sorted[k] as int].left);
        }
    }
    let s2 = sorted.push(e);
    assert forall|k: int| 0 <= k < s2.len() && !(#[trigger] arena[s2[k] as int]).left implies s2.contains(peer(arena, s2[k])) by {
        if k < sorted.len() {
            assert(s2[k] == sorted[k]);
            assert(sorted.contains(peer(arena, sorted[k])));
            let j = choose|j: int| 0 <= j < sorted.len() && sorted[j] == peer(arena, sorted[k]);
            assert(s2[j] == sorted[j]);
        } else {
            let j = choose|j: int| 0 <= j < sorted.len() && sorted[j] == o;
            assert(s2[j] == sorted[j]);
        }
    }
}

/// Run the sweep over the queued events and return the popped event
/// indices in popping order.
///
/// The events popped by a sweep that starts from every event queued once
/// are popped once each.
pub proof fn lemma_popped_once(sorted: Seq<usize>, q0: Seq<usize>, q1: Seq<usize>, n0: int, n1: int)
    requires
        0 <= n0 <= n1 <= usize::MAX,
        q0.to_multiset() == index_range(0, n0).to_multiset(),
        sorted.to_multiset().add(q1.to_multiset()) == q0.to_multiset().add(index_range(n0, n1).to_multiset()),
    ensures
        sorted.no_duplicates(),
{
    broadcast use vstd::multiset::group_multiset_axioms;

    lemma_range_join(0, n0, n1);
    assert forall|x: usize| sorted.to_multiset().contains(x) implies sorted.to_multiset().count(x) == 1 by {
        lemma_range_count(0, n1, x);
        assert(sorted.to_multiset().add(q1.to_multiset()).count(x) == index_range(0, n1).to_multiset().count(x));
    }
    sorted.lemma_multiset_has_no_duplicates_conv();
}

/// The sweep stops when the queue is empty, or right after popping an
/// event past the bound of [`past_bound`]. Every queued event, and every
/// event that splits append, is popped at most once; the ones not popped
/// stay queued. Started from a queue holding each event once in heap order
/// ([`sweep_start`]), a right event is popped only after its left event.
pub fn subdivide_segments(
    arena: &mut Vec<SweepEvent>,
    queue: &mut EventQueue,
    sbbox: BBox,
    cbbox: BBox,
    operation: Operation,
) -> (sorted: Vec<usize>)
    requires
        wf_arena(old(arena)@),
        indices_in(old(arena)@, old(queue)@),
    ensures
        wf_arena(final(arena)@),
        keeps_points(old(arena)@, final(arena)@),
        indices_in(final(arena)@, final(queue)@),
        indices_in(final(arena)@, sorted@),
        sorted@.to_multiset().add(final(queue)@.to_multiset()) == old(queue)@.to_multiset().add(
            index_range(old(arena)@.len() as int, final(arena)@.len() as int).to_multiset(),
        ),
        final(queue)@.len() > 0 ==> sorted@.len() > 0 && past_bound(
            operation,
            sbbox,
            cbbox,
            final(arena)@[sorted@.last() as int].point[0],
        ),
        forall|k: int|
            0 <= k < sorted@.len() - 1 ==> !past_bound(
                operation,
                sbbox,
                cbbox,
                final(arena)@[#[trigger] sorted@[k] as int].point[0],
            ),
        sweep_start(old(arena)@, old(queue)@) ==> pairs_closed(final(arena)@, sorted@) && output_ready(
            final(arena)@,
        ),
        sweep_start(old(arena)@, old(queue)@) ==> sorted@.no_duplicates(),
{
    let mut sweep_line = SweepLine::new();
    let mut sorted_events: Vec<usize> = Vec::new();
    let rightbound = if sbbox[2] < cbbox[2] {
        sbbox[2]
    } else {
        cbbox[2]
    };
    let ghost a0 = arena@;
    let ghost q0 = queue@;
    let ghost ok = sweep_start(a0, q0);
    let len0 = arena.len();
    proof {
        assert(arena@.len() == len0);
        crate::fill_queue::lemma_add_empty_range(q0.to_multiset(), a0.len() as int);
        assert(sorted_events@.to_multiset() =~= Multiset::empty()) by {
            broadcast use vstd::seq_lib::group_to_multiset_ensures;
        }
        assert(sorted_events@.to_multiset().add(q0.to_multiset()) =~= q0.to_multiset());
    }
    loop
        invariant_except_break
            forall|k: int|
                0 <= k < sorted_events@.len() ==> !past_bound(
                    operation,
                    sbbox,
                    cbbox,
                    arena@[#[trigger] sorted_events@[k] as int].point[0],
                ),
            ok ==> sweep_order(arena@, queue@, sweep_line@, sorted_events@),
        invariant
            sweep_inv(arena@, queue@, sweep_line@),
            keeps_points(a0, arena@),
            indices_in(arena@, sorted_events@),
            sorted_events@.to_multiset().add(queue@.to_multiset()) == q0.to_multiset().add(
                index_range(a0.len() as int, arena@.len() as int).to_multiset(),
            ),
            ok == sweep_start(a0, q0),
            rightbound == (if sbbox[2] < cbbox[2] { sbbox[2] } else { cbbox[2] }),
            ok ==> pairs_closed(arena@, sorted_events@) && output_ready(arena@),
            forall|k: int|
                0 <= k < sorted_events@.len() - 1 ==> !past_bound(
                    operation,
                    sbbox,
                    cbbox,
                    arena@[#[trigger] sorted_events@[k] as int].point[0],
                ),
        ensures
            queue@.len() > 0 ==> sorted_events@.len() > 0 && past_bound(
                operation,
                sbbox,
                cbbox,
                arena@[sorted_events@.last() as int].point[0],
            ),
        decreases arena_weight(arena@), queue@.len(),
    {
        if queue.is_empty() {
            break;
        }
        let ghost a1 = arena@;
        let ghost q1 = queue@;
        let ghost s1 = sorted_events@;
        proof {
            assert forall|k: int| 0 <= k < q1.len() implies crate::sweep_event::has_peer(arena@, #[trigger] q1[k]) by {
                assert(wf_event(arena@, q1[k]));
            }
            crate::event_queue::lemma_linked_comparable(arena@, q1);
        }
        let event_idx = match queue.pop(arena) {
            Some(e) => e,
            None => {
                break;
            },
        };
        sorted_events.push(event_idx);
        proof {
            broadcast use vstd::seq_lib::to_multiset_build;
            broadcast use vstd::seq_lib::to_multiset_contains;
            broadcast use vstd::multiset::group_multiset_axioms;
            assert(q1.contains(q1[0]));
            assert(q1.to_multiset().count(event_idx) > 0);
            assert(sorted_events@.to_multiset().add(queue@.to_multiset()) =~= s1.to_multiset().add(
                q1.to_multiset(),
            ));
            assert forall|k: int| 0 <= k < queue@.len() implies #[trigger] queue@[k] < arena@.len() by {
                assert(queue@.contains(queue@[k]));
            }
            assert forall|k: int| 0 <= k < sorted_events@.len() implies #[trigger] sorted_events@[k] < arena@.len() by {
                if k < s1.len() {
                    assert(sorted_events@[k] == s1[k]);
                }
            }
            assert forall|k: int| 0 <= k < sorted_events@.len() - 1 implies !past_bound(
                operation,
                sbbox,
                cbbox,
                arena@[#[trigger] sorted_events@[k] as int].point[0],
            ) by {
                assert(sorted_events@[k] == s1[k]);
            }
            if ok {
                lemma_pop_closed(arena@, q1, s1);
            }
        }
        let event_x = arena[event_idx].point[0];
        if (operation == Operation::Intersection && event_x as i64 > rightbound) || (operation
            == Operation::Difference && event_x as i64 > sbbox[2]) {
            break;
        }
        let ghost a2 = arena@;
        let ghost q2 = queue@;
        let ghost popped = sorted_events@;
        proof {
            lemma_queue_same(q2, a2);
            if ok {
                assert(popped.contains(event_idx));
                lemma_partition_member(popped, q2, a2.len() as int, event_idx);
            }
        }
        if arena[event_idx].left {
            proof {
                if ok {
                    let line = sweep_line@;
                    assert(!s1.contains(event_idx));
                    assert(line_open(a1, line, s1));
                    assert forall|k: int| 0 <= k < line.len() implies popped.contains(#[trigger] line[k]) && !popped.contains(peer(arena@, line[k])) by {
                        assert(s1.contains(line[k]));
                        assert(wf_event(arena@, line[k]));
                        lemma_push_contains(s1, event_idx, line[k]);
                        lemma_push_contains(s1, event_idx, peer(arena@, line[k]));
                    }
                    if line.contains(event_idx) {
                        let k = choose|k: int| 0 <= k < line.len() && line[k] == event_idx;
                        assert(s1.contains(line[k]));
                    }
                    assert(wf_event(arena@, event_idx));
                    lemma_push_contains(s1, event_idx, event_idx);
                    lemma_push_contains(s1, event_idx, peer(arena@, event_idx));
                }
            }
            sweep_line_insert_path(arena, queue, &mut sweep_line, event_idx, operation, Ghost(popped), Ghost(ok));
        } else {
            proof {
                if ok {
                    let line = sweep_line@;
                    assert(line_open(a1, line, s1));
                    assert forall|k: int| 0 <= k < line.len() implies popped.contains(#[trigger] line[k]) && (peer(arena@, line[k]) == event_idx || !popped.contains(peer(arena@, line[k]))) by {
                        assert(s1.contains(line[k]));
                        lemma_push_contains(s1, event_idx, line[k]);
                        lemma_push_contains(s1, event_idx, peer(arena@, line[k]));
                    }
                }
            }
            sweep_line_remove_path(arena, queue, &mut sweep_line, event_idx, Ghost(popped), Ghost(ok));
        }
        proof {
            lemma_history(a0, q0, sorted_events@, a2, q2, arena@, queue@);
            assert forall|k: int| 0 <= k < sorted_events@.len() implies #[trigger] sorted_events@[k] < arena@.len() by {
                assert(sorted_events@[k] < a2.len());
            }
            assert forall|k: int| 0 <= k < sorted_events@.len() implies !past_bound(
                operation,
                sbbox,
                cbbox,
                arena@[#[trigger] sorted_events@[k] as int].point[0],
            ) by {
                assert(sorted_events@[k] < a2.len());
                if k < s1.len() {
                    assert(sorted_events@[k] == s1[k]);
                }
            }
            if ok {
                assert(pairs_closed(arena@, sorted_events@));
            }
        }
    }
    proof {
        if ok {
            lemma_popped_once(sorted_events@, q0, queue@, a0.len() as int, arena@.len() as int);
        }
    }
    sorted_events
}

} // verus!
