//! Stitching the result events into output contours.
//!
//! The events that contribute to the result are put in event order; each
//! learns the position of its peer among them; then contours are walked
//! from the first unprocessed event, jumping across each segment to its
//! peer and on to an unprocessed event at the same point. Each contour is
//! classified as an exterior ring or as a hole of an earlier contour from
//! the `prev_in_result` link of its first event.
use crate::compare_events::{comes_after, event_after, event_before, events_order, lemma_order_greater_antisymmetric};
use crate::contour::Contour;
use crate::subdivide_segments::{lemma_push_contains, pairs_closed};
use crate::sweep_event::{ev, indices_in, lex_le, output_ready, peer, peer_point, wf_arena, wf_event, SweepEvent};
use crate::types::Position;
use vstd::prelude::*;

verus! {

/// Whether event `i` belongs in the output: a left event in the result, or
/// the right event of one.
pub open spec fn in_output(arena: Seq<SweepEvent>, i: usize) -> bool {
    if ev(arena, i).left {
        ev(arena, i).result_transition != 0
    } else {
        ev(arena, peer(arena, i)).result_transition != 0
    }
}

/// The events of `s` that belong in the output, in their order in `s`.
pub open spec fn output_events(arena: Seq<SweepEvent>, s: Seq<usize>) -> Seq<usize>
    decreases s.len(),
{
    if s.len() == 0 {
        Seq::empty()
    } else {
        let prev = output_events(arena, s.drop_last());
        if in_output(arena, s.last()) {
            prev.push(s.last())
        } else {
            prev
        }
    }
}

/// How many events of `t` come before `x` in event order... that is, how
/// many `x` comes after.
pub open spec fn after_count(arena: Seq<SweepEvent>, x: usize, t: Seq<usize>) -> nat
    decreases t.len(),
{
    if t.len() == 0 {
        0
    } else {
        (if event_after(arena, x, t[0]) {
            1nat
        } else {
            0nat
        }) + after_count(arena, x, t.drop_first())
    }
}

/// The number of pairs of `s` that are out of event order.
pub open spec fn inversions(arena: Seq<SweepEvent>, s: Seq<usize>) -> nat
    decreases s.len(),
{
    if s.len() == 0 {
        0
    } else {
        after_count(arena, s[0], s.drop_first()) + inversions(arena, s.drop_first())
    }
}

/// `s` with the entries at `m` and `m + 1` exchanged.
pub open spec fn swap_adjacent(s: Seq<usize>, m: int) -> Seq<usize> {
    s.update(m, s[m + 1]).update(m + 1, s[m])
}

/// No two neighbours of `s` are out of event order.
pub open spec fn adjacent_ordered(arena: Seq<SweepEvent>, s: Seq<usize>) -> bool {
    forall|j: int| 0 <= j < s.len() - 1 ==> !event_after(arena, #[trigger] s[j], s[j + 1])
}

/// Exchanging two neighbours keeps how many entries an event comes after.
proof fn lemma_after_count_swap(arena: Seq<SweepEvent>, x: usize, t: Seq<usize>, m: int)
    requires
        0 <= m < t.len() - 1,
    ensures
        after_count(arena, x, swap_adjacent(t, m)) == after_count(arena, x, t),
    decreases t.len(),
{
    let t2 = swap_adjacent(t, m);
    if m == 0 {
        let r = t.drop_first().drop_first();
        assert(t2.drop_first().drop_first() =~= r);
        assert(t2.drop_first()[0] == t[0]);
        assert(t2[0] == t[1]);
        assert(t.drop_first()[0] == t[1]);
        assert(after_count(arena, x, t2.drop_first()) == (if event_after(arena, x, t[0]) { 1nat } else { 0nat }) + after_count(arena, x, r));
        assert(after_count(arena, x, t.drop_first()) == (if event_after(arena, x, t[1]) { 1nat } else { 0nat }) + after_count(arena, x, r));
    } else {
        assert(t2.drop_first() =~= swap_adjacent(t.drop_first(), m - 1));
        lemma_after_count_swap(arena, x, t.drop_first(), m - 1);
    }
}

/// Exchanging two neighbours that are out of event order removes exactly
/// one inversion.
proof fn lemma_swap_inversions(arena: Seq<SweepEvent>, s: Seq<usize>, m: int)
    requires
        0 <= m < s.len() - 1,
        event_after(arena, s[m], s[m + 1]),
    ensures
        inversions(arena, swap_adjacent(s, m)) + 1 == inversions(arena, s),
    decreases s.len(),
{
    let s2 = swap_adjacent(s, m);
    if m == 0 {
        let a = s[0];
        let b = s[1];
        let r = s.drop_first().drop_first();
        lemma_order_greater_antisymmetric(ev(arena, a), ev(arena, b), peer_point(arena, a), peer_point(arena, b));
        assert(!event_after(arena, b, a));
        assert(s2.drop_first().drop_first() =~= r);
        assert(s2.drop_first()[0] == a);
        assert(s.drop_first()[0] == b);
        assert(after_count(arena, a, s.drop_first()) == 1 + after_count(arena, a, r));
        assert(after_count(arena, b, s2.drop_first()) == after_count(arena, b, r));
        assert(inversions(arena, s.drop_first()) == after_count(arena, b, r) + inversions(arena, r));
        assert(inversions(arena, s2.drop_first()) == after_count(arena, a, r) + inversions(arena, r));
    } else {
        assert(s2.drop_first() =~= swap_adjacent(s.drop_first(), m - 1));
        assert(s2[0] == s[0]);
        lemma_swap_inversions(arena, s.drop_first(), m - 1);
        lemma_after_count_swap(arena, s[0], s.drop_first(), m - 1);
    }
}

/// The arena differs only in the `other_pos` fields.
pub open spec fn same_but_other_pos(a0: Seq<SweepEvent>, a1: Seq<SweepEvent>) -> bool {
    &&& a1.len() == a0.len()
    &&& forall|i: int| 0 <= i < a0.len() ==> #[trigger] a1[i] == SweepEvent { other_pos: a1[i].other_pos, ..a0[i] }
}

/// The output events of `s` are the events of `s` that belong in the
/// output.
proof fn lemma_output_events(arena: Seq<SweepEvent>, s: Seq<usize>, x: usize)
    ensures
        output_events(arena, s).len() <= s.len(),
        output_events(arena, s).contains(x) <==> (s.contains(x) && in_output(arena, x)),
        forall|k: int| 0 <= k < output_events(arena, s).len() ==> s.contains(#[trigger] output_events(arena, s)[k]),
    decreases s.len(),
{
    if s.len() > 0 {
        let t = s.drop_last();
        lemma_output_events(arena, t, x);
        assert(s =~= t.push(s.last()));
        let o = output_events(arena, t);
        assert forall|k: int| 0 <= k < output_events(arena, s).len() implies s.contains(#[trigger] output_events(arena, s)[k]) by {
            if k < o.len() {
                assert(output_events(arena, s)[k] == o[k]);
                assert(t.contains(o[k]));
                let j = choose|j: int| 0 <= j < t.len() && t[j] == o[k];
                assert(s[j] == t[j]);
            } else {
                assert(s[s.len() - 1] == s.last());
            }
        }
        if s.contains(x) && in_output(arena, x) {
            let j = choose|j: int| 0 <= j < s.len() && s[j] == x;
            if j < t.len() {
                assert(t[j] == x);
                assert(o.contains(x));
                let m = choose|m: int| 0 <= m < o.len() && o[m] == x;
                if in_output(arena, s.last()) {
                    assert(o.push(s.last())[m] == x);
                }
            } else {
                assert(o.push(s.last())[o.len() as int] == x);
            }
        }
        if output_events(arena, s).contains(x) {
            let m = choose|m: int| 0 <= m < output_events(arena, s).len() && output_events(arena, s)[m] == x;
            if m < o.len() {
                assert(o[m] == x);
                assert(o.contains(x));
                let j = choose|j: int| 0 <= j < t.len() && t[j] == x;
                assert(s[j] == x);
            } else {
                assert(x == s.last());
                assert(s[s.len() - 1] == x);
            }
        }
    }
}

/// Order the events of `sorted_events` that belong in the output by event
/// order (bubble sort: the list is close to sorted already), and record in
/// each its peer's position among them in `other_pos`.
fn order_events(arena: &mut Vec<SweepEvent>, sorted_events: &Vec<usize>) -> (r: Vec<usize>)
    requires
        wf_arena(old(arena)@),
        old(arena)@.len() <= usize::MAX,
        indices_in(old(arena)@, sorted_events@),
        pairs_closed(old(arena)@, sorted_events@),
        sorted_events@.no_duplicates(),
        sorted_events@.len() <= i32::MAX,
    ensures
        r@.to_multiset() == output_events(old(arena)@, sorted_events@).to_multiset(),
        r@.no_duplicates(),
        r@.len() <= sorted_events@.len(),
        adjacent_ordered(old(arena)@, r@),
        same_but_other_pos(old(arena)@, final(arena)@),
        forall|k: int| 0 <= k < r@.len() ==> #[trigger] r@[k] < final(arena)@.len() && 0 <= final(arena)@[r@[k] as int].other_pos < r@.len(),
        forall|k: int| 0 <= k < r@.len() && !old(arena)@[#[trigger] r@[k] as int].left ==> r@.contains(peer(old(arena)@, r@[k])),
        forall|k: int|
            0 <= k < r@.len() && r@.contains(peer(old(arena)@, #[trigger] r@[k])) ==> r@[final(arena)@[r@[k] as int].other_pos as int]
                == peer(old(arena)@, r@[k]),
        forall|k: int|
            0 <= k < r@.len() && !r@.contains(peer(old(arena)@, #[trigger] r@[k])) ==> final(arena)@[r@[k] as int].other_pos == k,
{
    let ghost a0 = arena@;
    let ghost s = sorted_events@;
    let mut result_events: Vec<usize> = Vec::new();
    let mut k: usize = 0;
    while k < sorted_events.len()
        invariant
            k <= s.len(),
            s == sorted_events@,
            arena@ == a0,
            wf_arena(a0),
            indices_in(a0, s),
            result_events@ == output_events(a0, s.take(k as int)),
        decreases s.len() - k,
    {
        let idx = sorted_events[k];
        proof {
            assert(wf_event(a0, idx));
            assert(s.take(k as int + 1).drop_last() =~= s.take(k as int));
            assert(s.take(k as int + 1).last() == idx);
        }
        let other_idx = arena[idx].other_event.unwrap();
        let belongs = (arena[idx].left && arena[idx].in_result()) || (!arena[idx].left
            && arena[other_idx].in_result());
        if belongs {
            result_events.push(idx);
        }
        k = k + 1;
    }
    proof {
        assert(s.take(s.len() as int) =~= s);
    }
    let ghost filtered = result_events@;
    let n = result_events.len();
    proof {
        lemma_output_events(a0, s, 0);
        lemma_output_events_distinct(a0, s);
        assert forall|j: int| 0 <= j < n implies #[trigger] filtered[j] < a0.len() by {
            assert(s.contains(filtered[j]));
        }
    }
    let mut sorted = false;
    while !sorted
        invariant
            n == result_events@.len(),
            n <= i32::MAX,
            arena@ == a0,
            wf_arena(a0),
            result_events@.to_multiset() == filtered.to_multiset(),
            forall|j: int| 0 <= j < n ==> #[trigger] result_events@[j] < a0.len(),
            sorted ==> adjacent_ordered(a0, result_events@),
        decreases inversions(a0, result_events@) + (if sorted { 0nat } else { 1nat }),
    {
        sorted = true;
        let ghost start_inv = inversions(a0, result_events@);
        let mut i: usize = 0;
        while i + 1 < n
            invariant
                n == result_events@.len(),
                n <= i32::MAX,
                i <= n,
                arena@ == a0,
                wf_arena(a0),
                result_events@.to_multiset() == filtered.to_multiset(),
                forall|j: int| 0 <= j < n ==> #[trigger] result_events@[j] < a0.len(),
                sorted ==> inversions(a0, result_events@) == start_inv,
                sorted ==> forall|j: int| 0 <= j < i ==> !event_after(a0, #[trigger] result_events@[j], result_events@[j + 1]),
                !sorted ==> inversions(a0, result_events@) < start_inv,
            decreases n - i,
        {
            let x = result_events[i];
            let y = result_events[i + 1];
            proof {
                assert(wf_event(a0, x));
                assert(wf_event(a0, y));
            }
            if comes_after(arena, x, y) {
                let ghost before = result_events@;
                result_events.set(i, y);
                result_events.set(i + 1, x);
                proof {
                    assert(result_events@ =~= swap_adjacent(before, i as int));
                    lemma_swap_inversions(a0, before, i as int);
                    crate::event_queue::lemma_swap_multiset(before, i as int, i as int + 1);
                    assert(before.update(i as int, before[i as int + 1]).update(i as int + 1, before[i as int]) =~= result_events@);
                }
                sorted = false;
            }
            i = i + 1;
        }
    }
    let ghost ordered = result_events@;
    proof {
        broadcast use vstd::multiset::group_multiset_axioms;
        filtered.lemma_multiset_has_no_duplicates();
        assert forall|x: usize| ordered.to_multiset().contains(x) implies ordered.to_multiset().count(x) == 1 by {
            assert(filtered.to_multiset().count(x) == ordered.to_multiset().count(x));
        }
        ordered.lemma_multiset_has_no_duplicates_conv();
    }
    // each event's own position
    let mut i: usize = 0;
    while i < n
        invariant
            n == result_events@.len(),
            ordered == result_events@,
            ordered.no_duplicates(),
            n <= s.len(),
            s.len() <= i32::MAX,
            same_but_other_pos(a0, arena@),
            forall|j: int| 0 <= j < n ==> #[trigger] ordered[j] < a0.len(),
            forall|j: int| 0 <= j < i ==> #[trigger] arena@[ordered[j] as int].other_pos == j,
        decreases n - i,
    {
        let idx = result_events[i];
        let ghost before = arena@;
        let mut e = arena[idx];
        e.other_pos = i as i32;
        arena.set(idx, e);
        proof {
            assert forall|j: int| 0 <= j < i + 1 implies #[trigger] arena@[ordered[j] as int].other_pos == j by {
                if j < i {
                    assert(ordered[j] != ordered[i as int]);
                    assert(arena@[ordered[j] as int] == before[ordered[j] as int]);
                }
            }
        }
        i = i + 1;
    }
    // right events swap positions with their peers
    let mut right_event_indices: Vec<usize> = Vec::new();
    let mut j: usize = 0;
    while j < n
        invariant
            n == result_events@.len(),
            ordered == result_events@,
            ordered.no_duplicates(),
            same_but_other_pos(a0, arena@),
            forall|m: int| 0 <= m < n ==> #[trigger] ordered[m] < a0.len(),
            forall|m: int| 0 <= m < n ==> #[trigger] arena@[ordered[m] as int].other_pos == m,
            j <= n,
            forall|m: int|
                0 <= m < right_event_indices@.len() ==> ordered.take(j as int).contains(#[trigger] right_event_indices@[m])
                    && !a0[right_event_indices@[m] as int].left,
            forall|m: int| 0 <= m < j && !a0[#[trigger] ordered[m] as int].left ==> right_event_indices@.contains(ordered[m]),
            right_event_indices@.no_duplicates(),
        decreases n - j,
    {
        let idx = result_events[j];
        let ghost rb = right_event_indices@;
        if !arena[idx].left {
            proof {
                assert(!rb.contains(idx)) by {
                    if rb.contains(idx) {
                        let m = choose|m: int| 0 <= m < rb.len() && rb[m] == idx;
                        assert(ordered.take(j as int).contains(rb[m]));
                        let q = choose|q: int| 0 <= q < j && ordered.take(j as int)[q] == rb[m];
                        assert(ordered[q] == ordered[j as int]);
                    }
                }
            }
            right_event_indices.push(idx);
        }
        proof {
            let rr = right_event_indices@;
            assert forall|m: int| 0 <= m < rr.len() implies ordered.take(j as int + 1).contains(#[trigger] rr[m])
                && !a0[rr[m] as int].left by {
                if m < rb.len() {
                    assert(rr[m] == rb[m]);
                    let q = choose|q: int| 0 <= q < j && ordered.take(j as int)[q] == rb[m];
                    assert(ordered.take(j as int + 1)[q] == rb[m]);
                } else {
                    assert(ordered.take(j as int + 1)[j as int] == idx);
                }
            }
            assert forall|m: int| 0 <= m < j + 1 && !a0[#[trigger] ordered[m] as int].left implies rr.contains(ordered[m]) by {
                if m < j {
                    let q = choose|q: int| 0 <= q < rb.len() && rb[q] == ordered[m];
                    assert(rr[q] == ordered[m]);
                } else {
                    assert(rr[rr.len() - 1] == idx);
                }
            }
        }
        j = j + 1;
    }
    let ghost rights = right_event_indices@;
    proof {
        assert(ordered.take(n as int) =~= ordered);
        assert forall|m: int| 0 <= m < n implies #[trigger] pos_linked(a0, arena@, ordered, rights.take(0), m) by {
            assert(rights.take(0).len() == 0);
        }
    }
    let mut j: usize = 0;
    while j < right_event_indices.len()
        invariant
            n == result_events@.len(),
            ordered == result_events@,
            ordered.no_duplicates(),
            rights == right_event_indices@,
            rights.no_duplicates(),
            j <= rights.len(),
            same_but_other_pos(a0, arena@),
            wf_arena(a0),
            pairs_closed(a0, s),
            forall|m: int| 0 <= m < n ==> #[trigger] ordered[m] < a0.len(),
            forall|m: int| 0 <= m < n ==> 0 <= #[trigger] arena@[ordered[m] as int].other_pos < n,
            forall|m: int| 0 <= m < rights.len() ==> ordered.contains(#[trigger] rights[m]) && !a0[rights[m] as int].left,
            forall|m: int| 0 <= m < n && !a0[#[trigger] ordered[m] as int].left ==> rights.contains(ordered[m]),
            ordered.to_multiset() == filtered.to_multiset(),
            filtered == output_events(a0, s),
            forall|m: int| 0 <= m < n ==> #[trigger] pos_linked(a0, arena@, ordered, rights.take(j as int), m),
        decreases rights.len() - j,
    {
        let idx = right_event_indices[j];
        let ghost mi = choose|m: int| 0 <= m < n && ordered[m] == idx;
        proof {
            assert(ordered.contains(idx));
            assert(0 <= mi < n && ordered[mi] == idx);
            assert(wf_event(a0, idx));
        }
        let other_idx = arena[idx].other_event.unwrap();
        proof {
            // the peer of a right output event is a left output event
            broadcast use vstd::seq_lib::to_multiset_contains;
            lemma_output_events(a0, s, idx);
            lemma_output_events(a0, s, other_idx);
            assert(filtered.contains(idx)) by {
                assert(ordered.to_multiset().count(idx) > 0);
            }
            let ks = choose|k: int| 0 <= k < s.len() && s[k] == idx;
            assert(!a0[s[ks] as int].left);
            assert(s.contains(peer(a0, s[ks])));
            assert(wf_event(a0, other_idx));
            assert(filtered.contains(other_idx));
            assert(ordered.contains(other_idx)) by {
                assert(filtered.to_multiset().count(other_idx) > 0);
            }
        }
        let ghost mo = choose|m: int| 0 <= m < n && ordered[m] == other_idx;
        let ghost before = arena@;
        proof {
            assert(0 <= mo < n && ordered[mo] == other_idx);
            assert(!rights.take(j as int).contains(idx)) by {
                if rights.take(j as int).contains(idx) {
                    let q = choose|q: int| 0 <= q < j && rights.take(j as int)[q] == idx;
                    assert(rights[q] == rights[j as int]);
                }
            }
            assert(pos_linked(a0, before, ordered, rights.take(j as int), mi));
            assert(pos_linked(a0, before, ordered, rights.take(j as int), mo));
            assert(peer(a0, other_idx) == idx);
            assert(before[idx as int].other_pos == mi);
            assert(before[other_idx as int].other_pos == mo);
        }
        let tmp = arena[idx].other_pos;
        let op = arena[other_idx].other_pos;
        let mut e = arena[idx];
        e.other_pos = op;
        arena.set(idx, e);
        let mut o = arena[other_idx];
        o.other_pos = tmp;
        arena.set(other_idx, o);
        proof {
            let t0 = rights.take(j as int);
            let t1 = rights.take(j as int + 1);
            assert(t1 =~= t0.push(idx));
            assert forall|m: int| 0 <= m < n implies 0 <= #[trigger] arena@[ordered[m] as int].other_pos < n by {
                if ordered[m] != idx && ordered[m] != other_idx {
                    assert(arena@[ordered[m] as int] == before[ordered[m] as int]);
                }
            }
            assert forall|m: int| 0 <= m < n implies #[trigger] pos_linked(a0, arena@, ordered, t1, m) by {
                let x = ordered[m];
                assert(pos_linked(a0, before, ordered, t0, m));
                lemma_push_contains(t0, idx, x);
                lemma_push_contains(t0, idx, peer(a0, x));
                if x == idx {
                    assert(arena@[x as int].other_pos == mo);
                } else if x == other_idx {
                    assert(arena@[x as int].other_pos == mi);
                } else {
                    assert(arena@[x as int] == before[x as int]);
                    assert(wf_event(a0, x));
                    if a0[x as int].left && peer(a0, x) == idx {
                        assert(a0[idx as int].other_event == Some(x));
                    }
                }
            }
        }
        j = j + 1;
    }
    proof {
        assert(rights.take(rights.len() as int) =~= rights);
        assert forall|k: int| 0 <= k < n && !a0[#[trigger] ordered[k] as int].left implies ordered.contains(peer(a0, ordered[k])) by {
            assert(rights.contains(ordered[k]));
            let q = choose|q: int| 0 <= q < rights.len() && rights[q] == ordered[k];
            assert(pos_linked(a0, arena@, ordered, rights, k));
        }
        assert forall|k: int| 0 <= k < n && ordered.contains(peer(a0, #[trigger] ordered[k])) implies ordered[arena@[ordered[k] as int].other_pos as int] == peer(a0, ordered[k]) by {
            assert(pos_linked(a0, arena@, ordered, rights, k));
            assert(wf_event(a0, ordered[k]));
            if a0[ordered[k] as int].left {
                let q = choose|q: int| 0 <= q < n && ordered[q] == peer(a0, ordered[k]);
                assert(!a0[ordered[q] as int].left);
                assert(rights.contains(ordered[q]));
            } else {
                assert(rights.contains(ordered[k]));
            }
        }
        assert forall|k: int| 0 <= k < n && !ordered.contains(peer(a0, #[trigger] ordered[k])) implies arena@[ordered[k] as int].other_pos == k by {
            assert(pos_linked(a0, arena@, ordered, rights, k));
            assert(wf_event(a0, ordered[k]));
            if !a0[ordered[k] as int].left {
                assert(rights.contains(ordered[k]));
                assert(false);
            }
            if rights.contains(peer(a0, ordered[k])) {
                let q = choose|q: int| 0 <= q < rights.len() && rights[q] == peer(a0, ordered[k]);
                assert(ordered.contains(rights[q]));
            }
        }
    }
    result_events
}

/// Where entry `m` of the ordered output events points with `other_pos`
/// while right events swap positions with their peers: a right event
/// already swapped, and a left event whose peer was, point at their peer;
/// the others still at themselves.
pub open spec fn pos_linked(a0: Seq<SweepEvent>, a: Seq<SweepEvent>, ordered: Seq<usize>, done: Seq<usize>, m: int) -> bool {
    let x = ordered[m];
    let swapped = if a0[x as int].left {
        done.contains(peer(a0, x))
    } else {
        done.contains(x)
    };
    &&& swapped ==> 0 <= a[x as int].other_pos < ordered.len() && ordered[a[x as int].other_pos as int] == peer(a0, x)
    &&& !swapped ==> a[x as int].other_pos == m
}

/// The output events of a sequence without repeats have no repeats.
proof fn lemma_output_events_distinct(arena: Seq<SweepEvent>, s: Seq<usize>)
    requires
        s.no_duplicates(),
    ensures
        output_events(arena, s).no_duplicates(),
    decreases s.len(),
{
    if s.len() > 0 {
        let t = s.drop_last();
        assert(t.no_duplicates());
        lemma_output_events_distinct(arena, t);
        lemma_output_events(arena, t, s.last());
        if t.contains(s.last()) {
            let j = choose|j: int| 0 <= j < t.len() && t[j] == s.last();
            assert(s[j] == s[s.len() - 1]);
        }
    }
}

/// The points of a list of events.
pub open spec fn points_of(arena: Seq<SweepEvent>, r: Seq<usize>) -> Seq<Position> {
    Seq::new(r.len(), |k: int| arena[r[k] as int].point)
}

/// Scanning forward from `j` over events at point `p`: the first one not
/// processed yet.
pub open spec fn scan_forward(pts: Seq<Position>, processed: Seq<bool>, p: Position, j: int) -> Option<int>
    decreases pts.len() - j,
{
    if j < 0 || j >= pts.len() || pts[j] != p {
        None
    } else if !processed[j] {
        Some(j)
    } else {
        scan_forward(pts, processed, p, j + 1)
    }
}

/// Scanning backward from `j` down to `orig`: the first position not
/// processed yet, or `orig` itself; nothing below `orig`.
pub open spec fn scan_backward(processed: Seq<bool>, j: int, orig: int) -> Option<int>
    decreases j - orig,
{
    if j < orig {
        None
    } else if j > orig && processed[j] {
        scan_backward(processed, j - 1, orig)
    } else {
        Some(j)
    }
}

/// The next position of a contour walk from `pos`: an unprocessed event
/// at the same point further on, else the nearest unprocessed position
/// back down to the walk's start `orig`.
pub open spec fn next_position(pts: Seq<Position>, processed: Seq<bool>, pos: int, orig: int) -> Option<int> {
    match scan_forward(pts, processed, pts[pos], pos + 1) {
        Some(j) => Some(j),
        None => if pos == 0 {
            None
        } else {
            scan_backward(processed, pos - 1, orig)
        },
    }
}

/// What the forward scan finds is an unprocessed position at or after
/// `j`.
proof fn lemma_scans(pts: Seq<Position>, processed: Seq<bool>, p: Position, j: int, orig: int)
    requires
        processed.len() == pts.len(),
    ensures
        scan_forward(pts, processed, p, j) matches Some(k) ==> j <= k < pts.len() && !processed[k],
    decreases pts.len() - j,
{
    if 0 <= j < pts.len() && pts[j] == p && processed[j] {
        lemma_scans(pts, processed, p, j + 1, orig);
    }
}

/// What the backward scan finds.
proof fn lemma_scan_back(processed: Seq<bool>, j: int, orig: int)
    ensures
        scan_backward(processed, j, orig) matches Some(k) ==> orig <= k <= j && (k == orig || !processed[k]),
    decreases j - orig,
{
    if j >= orig && j > orig && processed[j] {
        lemma_scan_back(processed, j - 1, orig);
    }
}

/// Find the next position of a contour walk; see [`next_position`].
fn next_pos(arena: &Vec<SweepEvent>, pos: usize, result_events: &Vec<usize>, processed: &Vec<bool>, orig_pos: usize) -> (r: Option<usize>)
    requires
        pos < result_events@.len(),
        processed@.len() == result_events@.len(),
        forall|k: int| 0 <= k < result_events@.len() ==> #[trigger] result_events@[k] < arena@.len(),
        forall|k: int| 0 <= k < orig_pos ==> #[trigger] processed@[k],
    ensures
        r == (match next_position(points_of(arena@, result_events@), processed@, pos as int, orig_pos as int) {
            Some(j) => Some(j as usize),
            None => None::<usize>,
        }),
        r matches Some(j) ==> orig_pos <= j < result_events@.len() && (j == orig_pos || !processed@[j as int]),
{
    let ghost pts = points_of(arena@, result_events@);
    let n = result_events.len();
    let p = arena[result_events[pos]].point;
    proof {
        assert(pts[pos as int] == p);
        lemma_scans(pts, processed@, p, pos as int + 1, orig_pos as int);
    }
    let mut new_pos = pos + 1;
    loop
        invariant
            n == result_events@.len(),
            processed@.len() == n,
            pos + 1 <= new_pos <= n,
            pts == points_of(arena@, result_events@),
            pts[pos as int] == p,
            forall|k: int| 0 <= k < result_events@.len() ==> #[trigger] result_events@[k] < arena@.len(),
            forall|k: int| 0 <= k < orig_pos ==> #[trigger] processed@[k],
            scan_forward(pts, processed@, p, new_pos as int) == scan_forward(pts, processed@, p, pos as int + 1),
        ensures
            scan_forward(pts, processed@, p, new_pos as int) is None,
            scan_forward(pts, processed@, p, new_pos as int) == scan_forward(pts, processed@, p, pos as int + 1),
        decreases n - new_pos,
    {
        if new_pos >= n {
            break;
        }
        let p1 = arena[result_events[new_pos]].point;
        proof {
            assert(pts[new_pos as int] == p1);
            crate::equals::lemma_position_eq(p1, p);
        }
        if p1[0] != p[0] || p1[1] != p[1] {
            break;
        }
        if !processed[new_pos] {
            proof {
                if (new_pos as int) < orig_pos as int {
                    assert(processed@[new_pos as int]);
                }
            }
            return Some(new_pos);
        }
        new_pos = new_pos + 1;
    }
    if pos == 0 {
        return None;
    }
    let mut new_pos = pos - 1;
    if new_pos < orig_pos {
        return None;
    }
    while processed[new_pos] && new_pos > orig_pos
        invariant
            orig_pos <= new_pos < n,
            processed@.len() == n,
            scan_backward(processed@, new_pos as int, orig_pos as int) == scan_backward(processed@, pos as int - 1, orig_pos as int),
        decreases new_pos,
    {
        new_pos = new_pos - 1;
    }
    proof {
        lemma_scan_back(processed@, pos as int - 1, orig_pos as int);
    }
    Some(new_pos)
}

/// Mark position `pos` of the result events as processed and assign its
/// event to contour `contour_id`.
fn mark_processed(arena: &mut Vec<SweepEvent>, result_events: &Vec<usize>, processed: &mut Vec<bool>, pos: usize, contour_id: i32)
    requires
        forall|k: int| 0 <= k < result_events@.len() ==> #[trigger] result_events@[k] < old(arena)@.len(),
    ensures
        final(processed)@ == (if pos < old(processed)@.len() {
            old(processed)@.update(pos as int, true)
        } else {
            old(processed)@
        }),
        final(arena)@ == (if pos < result_events@.len() {
            old(arena)@.update(
                result_events@[pos as int] as int,
                SweepEvent { output_contour_id: contour_id, ..old(arena)@[result_events@[pos as int] as int] },
            )
        } else {
            old(arena)@
        }),
{
    if pos < processed.len() {
        processed.set(pos, true);
    }
    if pos < result_events.len() {
        let idx = result_events[pos];
        let mut e = arena[idx];
        e.output_contour_id = contour_id;
        arena.set(idx, e);
    }
}

/// The hole hierarchy of a list of contours: depths are bounded by the
/// index; a contour is a hole only of an earlier exterior contour; and the
/// holes listed by a contour are exactly the contours that are its holes.
pub open spec fn hole_tree(cs: Seq<Contour>) -> bool {
    &&& forall|c: int| 0 <= c < cs.len() ==> 0 <= #[trigger] cs[c].depth <= c
    &&& forall|c: int|
        0 <= c < cs.len() && (#[trigger] cs[c].hole_of) is Some ==> cs[c].hole_of.unwrap() < c
            && cs[cs[c].hole_of.unwrap() as int].hole_of is None
    &&& forall|c: int, j: int|
        0 <= c < cs.len() && 0 <= j < cs[c].hole_ids@.len() ==> c < #[trigger] cs[c].hole_ids@[j] < cs.len()
            && cs[cs[c].hole_ids@[j] as int].hole_of == Some(c as usize)
    &&& forall|c: int, h: int|
        #![trigger cs[h].hole_of, cs[c].hole_ids]
        0 <= c < cs.len() && 0 <= h < cs.len() && cs[h].hole_of == Some(c as usize) ==> cs[c].hole_ids@.contains(h as usize)
    &&& forall|c: int| 0 <= c < cs.len() ==> (#[trigger] cs[c].hole_ids@).no_duplicates()
}

/// The contour that a new contour starting at `event` is a hole of: none
/// when no result event lies below it or when that event's contour is not
/// known yet; when the area above that event is inside the result, the
/// contour of that event (or, if that contour is itself a hole, its
/// parent); otherwise none.
pub open spec fn context_hole_of(arena: Seq<SweepEvent>, event: usize, cs: Seq<Contour>) -> Option<usize> {
    match ev(arena, event).prev_in_result {
        None => None,
        Some(p) => {
            let lid = ev(arena, p).output_contour_id;
            if lid < 0 || ev(arena, p).result_transition <= 0 {
                None
            } else {
                match cs[lid as int].hole_of {
                    Some(q) => Some(q),
                    None => Some(lid as usize),
                }
            }
        },
    }
}

/// The depth of a new contour starting at `event`; see
/// [`context_hole_of`]: a hole of an exterior contour is one level deeper,
/// a sibling hole or a neighbouring exterior is at the same depth.
pub open spec fn context_depth(arena: Seq<SweepEvent>, event: usize, cs: Seq<Contour>) -> int {
    match ev(arena, event).prev_in_result {
        None => 0,
        Some(p) => {
            let lid = ev(arena, p).output_contour_id;
            if lid < 0 {
                0
            } else if ev(arena, p).result_transition > 0 {
                match cs[lid as int].hole_of {
                    Some(_) => cs[lid as int].depth as int,
                    None => cs[lid as int].depth + 1,
                }
            } else {
                cs[lid as int].depth as int
            }
        },
    }
}

/// Build the contour about to be walked from `event_idx`, classified as an
/// exterior or a hole; a hole is recorded in its parent's hole list.
///
/// The new contour is a hole exactly when the nearest result edge below
/// its first event belongs to a contour already walked and has the result
/// area above it; a hole belongs to an exterior contour, the lower contour
/// itself or the exterior contour that the lower contour is a hole of.
fn initialize_contour_from_context(arena: &Vec<SweepEvent>, event_idx: usize, contours: &mut Vec<Contour>, contour_id: i32) -> (c: Contour)
    requires
        event_idx < arena@.len(),
        ev(arena@, event_idx).prev_in_result matches Some(p) ==> p < arena@.len(),
        forall|j: int| 0 <= j < arena@.len() ==> (#[trigger] arena@[j]).output_contour_id < old(contours)@.len(),
        hole_tree(old(contours)@),
        contour_id == old(contours)@.len(),
        old(contours)@.len() < i32::MAX,
    ensures
        c.points@ == Seq::<Position>::empty(),
        c.hole_ids@ == Seq::<usize>::empty(),
        c.hole_of == context_hole_of(arena@, event_idx, old(contours)@),
        c.hole_of is Some <==> (ev(arena@, event_idx).prev_in_result matches Some(p) && 0 <= ev(arena@, p).output_contour_id
            && ev(arena@, p).result_transition > 0),
        c.hole_of matches Some(q) ==> {
            let lid = ev(arena@, ev(arena@, event_idx).prev_in_result.unwrap()).output_contour_id as int;
            &&& q < old(contours)@.len()
            &&& old(contours)@[q as int].hole_of is None
            &&& (q as int == lid || old(contours)@[lid].hole_of == Some(q))
        },
        c.depth == context_depth(arena@, event_idx, old(contours)@),
        final(contours)@.len() == old(contours)@.len(),
        hole_tree(final(contours)@.push(c)),
        forall|k: int| 0 <= k < old(contours)@.len() ==> (#[trigger] final(contours)@[k]).points == old(contours)@[k].points,
        c.hole_of is None ==> final(contours)@ == old(contours)@,
        c.hole_of matches Some(q) ==> {
            &&& final(contours)@[q as int].hole_ids@ == old(contours)@[q as int].hole_ids@.push(contour_id as usize)
            &&& final(contours)@[q as int].hole_of == old(contours)@[q as int].hole_of
            &&& final(contours)@[q as int].depth == old(contours)@[q as int].depth
            &&& forall|k: int| 0 <= k < old(contours)@.len() && k != q ==> #[trigger] final(contours)@[k] == old(contours)@[k]
        },
{
    let mut contour = Contour::new();
    let prev_in_result_idx = match arena[event_idx].prev_in_result {
        Some(p) => p,
        None => {
            contour.hole_of = None;
            contour.depth = 0;
            proof {
                lemma_tree_extend(old(contours)@, contour);
            }
            return contour;
        },
    };
    let lower_contour_id = arena[prev_in_result_idx].output_contour_id;
    let lower_result_transition = arena[prev_in_result_idx].result_transition;
    if lower_contour_id < 0 {
        contour.hole_of = None;
        contour.depth = 0;
        proof {
            lemma_tree_extend(old(contours)@, contour);
        }
        return contour;
    }
    let lower_contour_id = lower_contour_id as usize;
    proof {
        assert(arena@[prev_in_result_idx as int].output_contour_id < contours@.len());
    }
    if lower_result_transition > 0 {
        let lower_hole_of = contours[lower_contour_id].hole_of;
        let lower_depth = contours[lower_contour_id].depth;
        if let Some(parent_contour_id) = lower_hole_of {
            contours[parent_contour_id].hole_ids.push(contour_id as usize);
            contour.hole_of = Some(parent_contour_id);
            contour.depth = lower_depth;
        } else {
            contours[lower_contour_id].hole_ids.push(contour_id as usize);
            contour.hole_of = Some(lower_contour_id);
            contour.depth = lower_depth + 1;
        }
        proof {
            lemma_tree_hole(old(contours)@, contours@, contour);
        }
    } else {
        contour.hole_of = None;
        contour.depth = contours[lower_contour_id].depth;
        proof {
            lemma_tree_extend(old(contours)@, contour);
        }
    }
    contour
}

/// Appending an exterior contour, or any contour whose hole fields fit,
/// keeps the hole hierarchy.
proof fn lemma_tree_extend(cs: Seq<Contour>, c: Contour)
    requires
        hole_tree(cs),
        cs.len() < usize::MAX,
        c.hole_of is None,
        c.hole_ids@.len() == 0,
        0 <= c.depth <= cs.len(),
    ensures
        hole_tree(cs.push(c)),
{
    let full = cs.push(c);
    assert forall|c1: int, h: int|
        #![trigger full[h].hole_of, full[c1].hole_ids]
        0 <= c1 < full.len() && 0 <= h < full.len() && full[h].hole_of == Some(c1 as usize) implies full[c1].hole_ids@.contains(h as usize) by {
        assert(h < cs.len());
        assert(cs[h].hole_of == Some(c1 as usize));
        assert(c1 < h);
    }
    assert forall|k: int| 0 <= k < full.len() implies (#[trigger] full[k].hole_ids@).no_duplicates() by {
        if k < cs.len() {
            assert(full[k] == cs[k]);
        }
    }
}

/// Appending a hole whose parent lists it keeps the hole hierarchy.
proof fn lemma_tree_hole(cs: Seq<Contour>, cs2: Seq<Contour>, c: Contour)
    requires
        hole_tree(cs),
        cs.len() < usize::MAX,
        c.hole_of matches Some(q) && q < cs.len() && cs[q as int].hole_of is None,
        c.hole_ids@.len() == 0,
        0 <= c.depth <= cs.len(),
        cs2.len() == cs.len(),
        forall|k: int| 0 <= k < cs.len() && k != c.hole_of.unwrap() ==> #[trigger] cs2[k] == cs[k],
        cs2[c.hole_of.unwrap() as int].hole_ids@ == cs[c.hole_of.unwrap() as int].hole_ids@.push(cs.len() as usize),
        cs2[c.hole_of.unwrap() as int].hole_of == cs[c.hole_of.unwrap() as int].hole_of,
        cs2[c.hole_of.unwrap() as int].depth == cs[c.hole_of.unwrap() as int].depth,
    ensures
        hole_tree(cs2.push(c)),
{
    let q = c.hole_of.unwrap() as int;
    let n = cs.len() as int;
    let full = cs2.push(c);
    assert forall|k: int| 0 <= k < full.len() implies 0 <= #[trigger] full[k].depth <= k by {
        if k < n && k != q {
            assert(full[k] == cs[k]);
        }
    }
    assert forall|k: int| 0 <= k < full.len() && (#[trigger] full[k].hole_of) is Some implies full[k].hole_of.unwrap() < k
        && full[full[k].hole_of.unwrap() as int].hole_of is None by {
        if k < n && k != q {
            assert(full[k] == cs[k]);
            let p = cs[k].hole_of.unwrap() as int;
            if p != q {
                assert(full[p] == cs[p]);
            }
        } else if k == q {
            assert(cs[q].hole_of is None);
        }
    }
    assert forall|k: int, j: int| 0 <= k < full.len() && 0 <= j < full[k].hole_ids@.len() implies k < #[trigger] full[k].hole_ids@[j]
        < full.len() && full[full[k].hole_ids@[j] as int].hole_of == Some(k as usize) by {
        if k < n && k != q {
            assert(full[k] == cs[k]);
            let h = cs[k].hole_ids@[j] as int;
            assert(cs[h].hole_of == Some(k as usize));
            if h != q {
                assert(full[h] == cs[h]);
            }
        } else if k == q {
            if j < cs[q].hole_ids@.len() {
                let h = cs[q].hole_ids@[j] as int;
                assert(full[q].hole_ids@[j] == h);
                assert(cs[h].hole_of == Some(q as usize));
                if h != q {
                    assert(full[h] == cs[h]);
                }
            }
        }
    }
    assert forall|k: int, h: int|
        #![trigger full[h].hole_of, full[k].hole_ids]
        0 <= k < full.len() && 0 <= h < full.len() && full[h].hole_of == Some(k as usize) implies full[k].hole_ids@.contains(h as usize) by {
        if h == n {
            assert(k == q);
            assert(full[q].hole_ids@[cs[q].hole_ids@.len() as int] == n);
        } else {
            if h != q {
                assert(full[h] == cs[h]);
            }
            assert(cs[h].hole_of == Some(k as usize));
            assert(cs[k].hole_ids@.contains(h as usize));
            if k != q {
                assert(full[k] == cs[k]);
            } else {
                let j = choose|j: int| 0 <= j < cs[q].hole_ids@.len() && cs[q].hole_ids@[j] == h;
                assert(full[q].hole_ids@[j] == h);
            }
        }
    }
    assert forall|k: int| 0 <= k < full.len() implies (#[trigger] full[k].hole_ids@).no_duplicates() by {
        if k < n && k != q {
            assert(full[k] == cs[k]);
        } else if k == q {
            let old_ids = cs[q].hole_ids@;
            assert(old_ids.no_duplicates());
            assert forall|a: int, b: int| 0 <= a < full[q].hole_ids@.len() && 0 <= b < full[q].hole_ids@.len() && a != b implies full[q].hole_ids@[a] != full[q].hole_ids@[b] by {
                if a < old_ids.len() && b < old_ids.len() {
                    assert(full[q].hole_ids@[a] == old_ids[a]);
                    assert(full[q].hole_ids@[b] == old_ids[b]);
                } else if a < old_ids.len() {
                    assert(old_ids[a] < n);
                } else if b < old_ids.len() {
                    assert(old_ids[b] < n);
                }
            }
        }
    }
}

/// Whether `p` is the point of an event of `s` that belongs in the output.
pub open spec fn output_point(arena: Seq<SweepEvent>, s: Seq<usize>, p: Position) -> bool {
    exists|k: int| 0 <= k < s.len() && in_output(arena, s[k]) && arena[s[k] as int].point == p
}

/// The number of positions not processed yet.
pub open spec fn count_open(processed: Seq<bool>) -> nat
    decreases processed.len(),
{
    if processed.len() == 0 {
        0
    } else {
        count_open(processed.drop_last()) + (if processed.last() { 0nat } else { 1nat })
    }
}

/// Marking an open position processed lowers the count by one; marking a
/// processed one changes nothing.
proof fn lemma_count_open(processed: Seq<bool>, j: int)
    requires
        0 <= j < processed.len(),
    ensures
        !processed[j] ==> count_open(processed.update(j, true)) + 1 == count_open(processed),
        processed[j] ==> processed.update(j, true) == processed,
    decreases processed.len(),
{
    let u = processed.update(j, true);
    if processed[j] {
        assert(u =~= processed);
    } else if j == processed.len() - 1 {
        assert(u.drop_last() =~= processed.drop_last());
    } else {
        assert(u.drop_last() =~= processed.drop_last().update(j, true));
        lemma_count_open(processed.drop_last(), j);
    }
}

/// The arena differs only in the `output_contour_id` fields.
pub open spec fn same_but_contour_ids(a0: Seq<SweepEvent>, a1: Seq<SweepEvent>) -> bool {
    &&& a1.len() == a0.len()
    &&& forall|i: int|
        0 <= i < a0.len() ==> #[trigger] a1[i] == SweepEvent { output_contour_id: a1[i].output_contour_id, ..a0[i] }
}

/// A contour walk keeps the hole hierarchy of the finished contours with
/// the one being walked: only its points change.
proof fn lemma_tree_points(cs: Seq<Contour>, c0: Contour, c1: Contour)
    requires
        hole_tree(cs.push(c0)),
        c1.hole_of == c0.hole_of,
        c1.depth == c0.depth,
        c1.hole_ids@ == c0.hole_ids@,
    ensures
        hole_tree(cs.push(c1)),
{
    let f0 = cs.push(c0);
    let f1 = cs.push(c1);
    assert forall|k: int| 0 <= k < f1.len() implies 0 <= #[trigger] f1[k].depth <= k by {
        assert(f0[k].depth == f1[k].depth);
    }
    assert forall|k: int| 0 <= k < f1.len() && (#[trigger] f1[k].hole_of) is Some implies f1[k].hole_of.unwrap() < k
        && f1[f1[k].hole_of.unwrap() as int].hole_of is None by {
        assert(f0[k].hole_of == f1[k].hole_of);
        assert(f0[f0[k].hole_of.unwrap() as int].hole_of == f1[f0[k].hole_of.unwrap() as int].hole_of);
    }
    assert forall|k: int, j: int| 0 <= k < f1.len() && 0 <= j < f1[k].hole_ids@.len() implies k < #[trigger] f1[k].hole_ids@[j]
        < f1.len() && f1[f1[k].hole_ids@[j] as int].hole_of == Some(k as usize) by {
        assert(f1[k].hole_ids@ == f0[k].hole_ids@);
        assert(f1[f0[k].hole_ids@[j] as int].hole_of == f0[f0[k].hole_ids@[j] as int].hole_of);
    }
    assert forall|k: int, h: int|
        #![trigger f1[h].hole_of, f1[k].hole_ids]
        0 <= k < f1.len() && 0 <= h < f1.len() && f1[h].hole_of == Some(k as usize) implies f1[k].hole_ids@.contains(h as usize) by {
        assert(f0[h].hole_of == f1[h].hole_of);
        assert(f1[k].hole_ids@ == f0[k].hole_ids@);
        assert(f0[k].hole_ids@.contains(h as usize));
    }
    assert forall|k: int| 0 <= k < f1.len() implies (#[trigger] f1[k].hole_ids@).no_duplicates() by {
        assert(f1[k].hole_ids@ == f0[k].hole_ids@);
    }
}

/// The point a contour walk reaches by crossing the segment of output
/// event `e`: its peer's point, when the peer is an output event too, and
/// otherwise its own point.
pub open spec fn crossed_point(arena: Seq<SweepEvent>, s: Seq<usize>, e: usize) -> Position {
    if output_events(arena, s).contains(peer(arena, e)) {
        arena[peer(arena, e) as int].point
    } else {
        arena[e as int].point
    }
}

/// Point `t > 0` of a contour was reached by crossing the segment of an
/// output event; the second point by crossing the one of the event at the
/// first point.
pub open spec fn walked(arena: Seq<SweepEvent>, s: Seq<usize>, pts: Seq<Position>, t: int) -> bool {
    exists|j: int|
        0 <= j < s.len() && in_output(arena, #[trigger] s[j]) && pts[t] == crossed_point(arena, s, s[j]) && (t == 1
            ==> pts[0] == arena[s[j] as int].point)
}

/// The number of events of `r` at point `p`.
pub open spec fn ends_at(arena: Seq<SweepEvent>, r: Seq<usize>, p: Position) -> nat
    decreases r.len(),
{
    if r.len() == 0 {
        0
    } else {
        ends_at(arena, r.drop_last(), p) + if arena[r.last() as int].point == p {
            1nat
        } else {
            0nat
        }
    }
}

/// The output events of `s` form closed paths: each output segment has
/// both its events listed, and every point is the end of an even number
/// of output segments.
pub closed spec fn closed_paths(arena: Seq<SweepEvent>, s: Seq<usize>) -> bool {
    &&& forall|k: int|
        0 <= k < s.len() && in_output(arena, #[trigger] s[k]) ==> output_events(arena, s).contains(peer(arena, s[k]))
    &&& forall|p: Position| #[trigger] ends_at(arena, output_events(arena, s), p) % 2 == 0
}

/// The number of the first `hi` positions of `r` at point `p` whose flag
/// in `f` is set.
pub open spec fn done_at(arena: Seq<SweepEvent>, r: Seq<usize>, f: Seq<bool>, p: Position, hi: int) -> nat
    decreases hi,
{
    if hi <= 0 {
        0
    } else {
        done_at(arena, r, f, p, hi - 1) + if arena[r[hi - 1] as int].point == p && f[hi - 1] {
            1nat
        } else {
            0nat
        }
    }
}

/// Removing one entry removes its point from the count.
proof fn lemma_ends_remove(arena: Seq<SweepEvent>, y: Seq<usize>, i: int, p: Position)
    requires
        0 <= i < y.len(),
    ensures
        ends_at(arena, y, p) == ends_at(arena, y.remove(i), p) + if arena[y[i] as int].point == p {
            1nat
        } else {
            0nat
        },
    decreases y.len(),
{
    if i == y.len() - 1 {
        assert(y.remove(i) =~= y.drop_last());
    } else {
        lemma_ends_remove(arena, y.drop_last(), i, p);
        assert(y.remove(i).drop_last() =~= y.drop_last().remove(i));
        assert(y.remove(i).last() == y.last());
    }
}

/// The count of events at a point does not depend on their order.
proof fn lemma_ends_perm(arena: Seq<SweepEvent>, x: Seq<usize>, y: Seq<usize>, p: Position)
    requires
        x.to_multiset() == y.to_multiset(),
    ensures
        ends_at(arena, x, p) == ends_at(arena, y, p),
    decreases x.len(),
{
    broadcast use vstd::multiset::group_multiset_axioms;
    broadcast use vstd::seq_lib::to_multiset_contains;
    broadcast use vstd::seq_lib::to_multiset_len;

    vstd::seq_lib::to_multiset_len(x);
    vstd::seq_lib::to_multiset_len(y);
    if x.len() == 0 {
        assert(y.len() == 0);
    } else {
        let e = x.last();
        let xs = x.drop_last();
        assert(x =~= xs.push(e));
        vstd::seq_lib::to_multiset_build(xs, e);
        assert(x.to_multiset().contains(e));
        assert(y.contains(e));
        let i = choose|i: int| 0 <= i < y.len() && y[i] == e;
        vstd::seq_lib::to_multiset_remove(y, i);
        assert(xs.to_multiset() =~= y.remove(i).to_multiset());
        lemma_ends_perm(arena, xs, y.remove(i), p);
        lemma_ends_remove(arena, y, i, p);
    }
}

/// The processed positions at a point are at most all of them; fewer
/// leaves an unprocessed one.
proof fn lemma_done_le(arena: Seq<SweepEvent>, r: Seq<usize>, f: Seq<bool>, p: Position, hi: int)
    requires
        0 <= hi <= r.len(),
    ensures
        done_at(arena, r, f, p, hi) <= ends_at(arena, r.take(hi), p),
        done_at(arena, r, f, p, hi) < ends_at(arena, r.take(hi), p) ==> exists|j: int|
            0 <= j < hi && arena[r[j] as int].point == p && !#[trigger] f[j],
    decreases hi,
{
    if hi > 0 {
        lemma_done_le(arena, r, f, p, hi - 1);
        assert(r.take(hi).drop_last() =~= r.take(hi - 1));
        assert(r.take(hi).last() == r[hi - 1]);
    }
}

/// With no flag set the count is zero.
proof fn lemma_done_none(arena: Seq<SweepEvent>, r: Seq<usize>, f: Seq<bool>, p: Position, hi: int)
    requires
        forall|j: int| 0 <= j < hi ==> !#[trigger] f[j],
    ensures
        done_at(arena, r, f, p, hi) == 0,
    decreases hi,
{
    if hi > 0 {
        lemma_done_none(arena, r, f, p, hi - 1);
    }
}

/// Setting one unset flag adds its point to the count.
proof fn lemma_done_mark(arena: Seq<SweepEvent>, r: Seq<usize>, f: Seq<bool>, j: int, p: Position, hi: int)
    requires
        0 <= j < f.len(),
        !f[j],
        0 <= hi <= f.len(),
    ensures
        done_at(arena, r, f.update(j, true), p, hi) == done_at(arena, r, f, p, hi) + if j < hi && arena[r[j] as int].point
            == p {
            1nat
        } else {
            0nat
        },
    decreases hi,
{
    if hi > 0 {
        lemma_done_mark(arena, r, f, j, p, hi - 1);
    }
}

/// The point of the event at position `i` of `r`.
pub open spec fn point_at(arena: Seq<SweepEvent>, r: Seq<usize>, i: int) -> Position {
    arena[r[i] as int].point
}

/// Events in event order have their points in lexicographic order.
proof fn lemma_points_sorted(arena: Seq<SweepEvent>, r: Seq<usize>, j: int)
    requires
        adjacent_ordered(arena, r),
        0 <= j < r.len(),
    ensures
        forall|i: int| 0 <= i <= j ==> lex_le(point_at(arena, r, i), #[trigger] point_at(arena, r, j)) && lex_le(
            point_at(arena, r, i),
            point_at(arena, r, j),
        ),
    decreases j,
{
    if j > 0 {
        lemma_points_sorted(arena, r, j - 1);
        let a = point_at(arena, r, j - 1);
        let b = point_at(arena, r, j);
        assert(!event_after(arena, r[j - 1], r[j]));
        if a != b {
            crate::compare_events::lemma_distinct_points_order(arena, r[j - 1], r[j]);
        } else {
            crate::equals::lemma_position_eq(a, b);
        }
        assert(lex_le(a, b));
        assert forall|i: int| 0 <= i <= j implies lex_le(point_at(arena, r, i), #[trigger] point_at(arena, r, j))
            && lex_le(point_at(arena, r, i), point_at(arena, r, j)) by {
            if i < j {
                assert(lex_le(point_at(arena, r, i), a));
            }
        }
    }
}

/// Between two positions at one point, every position is at that point.
proof fn lemma_block(arena: Seq<SweepEvent>, r: Seq<usize>, a: int, c: int, b: int)
    requires
        adjacent_ordered(arena, r),
        0 <= a <= c <= b < r.len(),
        arena[r[a] as int].point == arena[r[b] as int].point,
    ensures
        arena[r[c] as int].point == arena[r[a] as int].point,
{
    lemma_points_sorted(arena, r, c);
    lemma_points_sorted(arena, r, b);
    assert(lex_le(point_at(arena, r, a), point_at(arena, r, c)));
    assert(lex_le(point_at(arena, r, c), point_at(arena, r, b)));
    crate::equals::lemma_position_eq(arena[r[c] as int].point, arena[r[a] as int].point);
}

/// What the forward scan finds sits at the scanned point; it finds
/// something when an unset position lies ahead within a run at that point.
proof fn lemma_scan_forward_at(pts: Seq<Position>, processed: Seq<bool>, p: Position, j: int, j0: int)
    requires
        processed.len() == pts.len(),
    ensures
        scan_forward(pts, processed, p, j) matches Some(k) ==> pts[k] == p,
        (0 <= j <= j0 < pts.len() && !processed[j0] && forall|c: int| j <= c <= j0 ==> #[trigger] pts[c] == p)
            ==> scan_forward(pts, processed, p, j) is Some,
    decreases pts.len() - j,
{
    if 0 <= j < pts.len() && pts[j] == p && processed[j] {
        lemma_scan_forward_at(pts, processed, p, j + 1, j0);
    }
}

/// The backward scan stops at or above an unset position above `orig`.
proof fn lemma_scan_back_find(processed: Seq<bool>, j: int, orig: int, j0: int)
    requires
        orig < j0 <= j < processed.len(),
        !processed[j0],
    ensures
        scan_backward(processed, j, orig) matches Some(k) && j0 <= k <= j && !processed[k],
    decreases j - j0,
{
    if j > j0 && processed[j] {
        lemma_scan_back_find(processed, j - 1, orig, j0);
    }
}

/// An event and its peer sit at different points.
proof fn lemma_peer_apart(arena: Seq<SweepEvent>, x: usize)
    requires
        wf_arena(arena),
        x < arena.len(),
    ensures
        arena[x as int].point != arena[peer(arena, x) as int].point,
{
    assert(wf_event(arena, x));
    let y = peer(arena, x);
    assert(wf_event(arena, y));
}

/// The walk list is in event order (kept opaque inside the walk).
#[verifier::opaque]
spec fn walk_sorted(arena: Seq<SweepEvent>, r: Seq<usize>) -> bool {
    adjacent_ordered(arena, r)
}

/// Each point carries an even number of the events of `r`.
#[verifier::opaque]
spec fn ends_even(arena: Seq<SweepEvent>, r: Seq<usize>) -> bool {
    forall|p: Position| #[trigger] ends_at(arena, r, p) % 2 == 0
}

/// Each point carries an even number of processed positions.
#[verifier::opaque]
spec fn all_even(arena: Seq<SweepEvent>, r: Seq<usize>, pr: Seq<bool>) -> bool {
    forall|p: Position| #[trigger] done_at(arena, r, pr, p, r.len() as int) % 2 == 0
}

/// The parity of the processed positions during a walk that started at
/// position `o` and now stands at position `t`: odd at the start point and
/// at the current point when the two differ, even everywhere else.
#[verifier::opaque]
spec fn walk_parity(arena: Seq<SweepEvent>, r: Seq<usize>, pr: Seq<bool>, t: int, o: int) -> bool {
    forall|p: Position|
        #[trigger] done_at(arena, r, pr, p, r.len() as int) % 2 == (if point_at(arena, r, t) != point_at(arena, r, o) && (p
            == point_at(arena, r, t) || p == point_at(arena, r, o)) {
            1int
        } else {
            0int
        })
}

/// A walk starts with every point even.
proof fn lemma_walk_start(arena: Seq<SweepEvent>, r: Seq<usize>, pr: Seq<bool>, o: int)
    requires
        all_even(arena, r, pr),
    ensures
        walk_parity(arena, r, pr, o, o),
{
    reveal(all_even);
    reveal(walk_parity);
}

/// The walk parity depends on the current position only through its
/// point.
proof fn lemma_walk_same_point(arena: Seq<SweepEvent>, r: Seq<usize>, pr: Seq<bool>, t: int, u: int, o: int)
    requires
        walk_parity(arena, r, pr, t, o),
        point_at(arena, r, t) == point_at(arena, r, u),
    ensures
        walk_parity(arena, r, pr, u, o),
{
    reveal(walk_parity);
}

/// A walk back at its start point leaves every point even.
proof fn lemma_walk_end(arena: Seq<SweepEvent>, r: Seq<usize>, pr: Seq<bool>, t: int, o: int)
    requires
        walk_parity(arena, r, pr, t, o),
        point_at(arena, r, t) == point_at(arena, r, o),
    ensures
        all_even(arena, r, pr),
{
    reveal(all_even);
    reveal(walk_parity);
}

/// Where a contour walk goes on from position `t` at point `q` when the
/// output forms closed paths: away from the walk's start point some
/// position at an unprocessed end at `q` remains and the walk takes one;
/// back at the start point it stops, or takes an unprocessed end there.
proof fn lemma_walk_next(arena: Seq<SweepEvent>, r: Seq<usize>, pr: Seq<bool>, t: int, orig: int)
    requires
        walk_sorted(arena, r),
        pr.len() == r.len(),
        forall|j: int| 0 <= j < r.len() ==> #[trigger] r[j] < arena.len(),
        ends_even(arena, r),
        0 <= orig < t < r.len(),
        pr[t],
        pr[orig],
        forall|j: int| 0 <= j < orig ==> #[trigger] pr[j],
        walk_parity(arena, r, pr, t, orig),
    ensures
        ({
            let np = next_position(points_of(arena, r), pr, t, orig);
            let q = point_at(arena, r, t);
            &&& q != point_at(arena, r, orig) ==> (np matches Some(j) && j != orig && 0 <= j < r.len()
                && point_at(arena, r, j) == q && !pr[j])
            &&& q == point_at(arena, r, orig) ==> (np is None || np == Some(orig) || (np matches Some(j) && j != orig
                && 0 <= j < r.len() && point_at(arena, r, j) == q && !pr[j]))
        }),
{
    reveal(ends_even);
    reveal(walk_parity);
    reveal(walk_sorted);
    let pts = points_of(arena, r);
    let n = r.len() as int;
    let q = point_at(arena, r, t);
    let sp = point_at(arena, r, orig);
    assert(pts[t] == q);
    lemma_scans(pts, pr, q, t + 1, orig);
    lemma_scan_forward_at(pts, pr, q, t + 1, t + 1);
    lemma_scan_back(pr, t - 1, orig);
    if q != sp {
        assert(done_at(arena, r, pr, q, n) % 2 == 1);
        assert(ends_at(arena, r, q) % 2 == 0);
        lemma_done_le(arena, r, pr, q, n);
        assert(r.take(n) =~= r);
        let j0 = choose|j: int| 0 <= j < n && arena[r[j] as int].point == q && !#[trigger] pr[j];
        assert(j0 != t);
        assert(j0 > orig) by {
            if j0 == orig {
                assert(pr[orig]);
            }
        }
        if j0 > t {
            assert forall|c: int| t + 1 <= c <= j0 implies #[trigger] pts[c] == q by {
                lemma_block(arena, r, t, c, j0);
            }
            lemma_scan_forward_at(pts, pr, q, t + 1, j0);
        }
        match scan_forward(pts, pr, q, t + 1) {
            Some(k) => {
                assert(pts[k] == q);
            },
            None => {
                assert(j0 < t);
                lemma_scan_back_find(pr, t - 1, orig, j0);
                let k = scan_backward(pr, t - 1, orig)->0;
                lemma_block(arena, r, j0, k, t);
            },
        }
    } else {
        match scan_forward(pts, pr, q, t + 1) {
            Some(k) => {
                assert(pts[k] == q);
            },
            None => {
                if let Some(k) = scan_backward(pr, t - 1, orig) {
                    if k != orig {
                        lemma_block(arena, r, orig, k, t);
                    }
                }
            },
        }
    }
}

/// One crossing of a contour walk from position `f` to the position `t`
/// of its peer, on output that forms closed paths: the parity of the
/// processed ends at each point moves from the departure point to the
/// arrival point, and the walk goes on as [`lemma_walk_next`] says.
proof fn lemma_walk_step(
    arena: Seq<SweepEvent>,
    r: Seq<usize>,
    pre: Seq<bool>,
    pr: Seq<bool>,
    f: int,
    t: int,
    o: int,
)
    requires
        wf_arena(arena),
        walk_sorted(arena, r),
        pre.len() == r.len(),
        forall|j: int| 0 <= j < r.len() ==> #[trigger] r[j] < arena.len(),
        ends_even(arena, r),
        0 <= o <= f < r.len(),
        0 <= t < r.len(),
        r[t] == peer(arena, r[f]),
        !pre[f],
        !pre[t],
        f == o || pre[o],
        forall|j: int| 0 <= j < o ==> #[trigger] pre[j],
        pr == pre.update(f, true).update(t, true),
        walk_parity(arena, r, pre, f, o),
    ensures
        walk_parity(arena, r, pr, t, o),
        ({
            let np = next_position(points_of(arena, r), pr, t, o);
            let q = point_at(arena, r, t);
            &&& q != point_at(arena, r, o) ==> (np matches Some(j) && j != o && 0 <= j < r.len()
                && point_at(arena, r, j) == q && !pr[j])
            &&& q == point_at(arena, r, o) ==> (np is None || np == Some(o) || (np matches Some(j) && j != o
                && 0 <= j < r.len() && point_at(arena, r, j) == q && !pr[j]))
        }),
{
    reveal(walk_parity);
    let n = r.len() as int;
    let sp = point_at(arena, r, o);
    let pp = point_at(arena, r, f);
    let qq = point_at(arena, r, t);
    lemma_peer_apart(arena, r[f]);
    assert(pp != qq);
    assert(f != t);
    let mid = pre.update(f, true);
    assert(!mid[t]);
    assert forall|p: Position| #[trigger] done_at(arena, r, pr, p, n) % 2 == (if qq != sp && (p == qq || p == sp) {
        1int
    } else {
        0int
    }) by {
        lemma_done_mark(arena, r, pre, f, p, n);
        lemma_done_mark(arena, r, mid, t, p, n);
        assert(done_at(arena, r, pre, p, n) % 2 == (if pp != sp && (p == pp || p == sp) {
            1int
        } else {
            0int
        }));
    }
    assert(t != o) by {
        if f != o {
            assert(pre[o]);
        }
    }
    assert(t > o) by {
        if t < o {
            assert(pre[t]);
        }
    }
    assert(pr[o]);
    assert(pr[t]);
    assert forall|j: int| 0 <= j < o implies #[trigger] pr[j] by {
        assert(pre[j]);
    }
    lemma_walk_next(arena, r, pr, t, o);
}

/// Contour `c` of `cs` runs through the segment of output event `e`: it
/// holds the event's point or the point reached by crossing the segment.
pub open spec fn on_contour(cs: Seq<Contour>, c: int, arena: Seq<SweepEvent>, s: Seq<usize>, e: usize) -> bool {
    &&& 0 <= c < cs.len()
    &&& cs[c].points@.contains(arena[e as int].point) || cs[c].points@.contains(crossed_point(arena, s, e))
}

/// The position in the walk list that the segment at position `j` leads to.
pub open spec fn pair_at(a1: Seq<SweepEvent>, r: Seq<usize>, j: int) -> int {
    a1[r[j] as int].other_pos as int
}

/// Positions `j` and the one its segment leads to are processed together
/// and, once processed, carry one contour label.
pub open spec fn pair_done(a1: Seq<SweepEvent>, a: Seq<SweepEvent>, processed: Seq<bool>, r: Seq<usize>, j: int) -> bool {
    &&& processed[j] == processed[pair_at(a1, r, j)]
    &&& processed[j] ==> a[r[j] as int].output_contour_id == a[r[pair_at(a1, r, j)] as int].output_contour_id
}

/// The walk list pairs positions up: it holds no event twice, and
/// following the pairing twice returns to the start.
proof fn lemma_walk_pairs(a0: Seq<SweepEvent>, a1: Seq<SweepEvent>, r: Seq<usize>, s: Seq<usize>)
    requires
        wf_arena(a0),
        s.no_duplicates(),
        r.to_multiset() == output_events(a0, s).to_multiset(),
        forall|j: int| 0 <= j < r.len() ==> #[trigger] r[j] < a0.len() && 0 <= a1[r[j] as int].other_pos < r.len(),
        forall|k: int| 0 <= k < r.len() && r.contains(peer(a0, #[trigger] r[k])) ==> r[a1[r[k] as int].other_pos as int] == peer(a0, r[k]),
        forall|k: int| 0 <= k < r.len() && !r.contains(peer(a0, #[trigger] r[k])) ==> a1[r[k] as int].other_pos == k,
    ensures
        r.no_duplicates(),
        forall|j: int| 0 <= j < r.len() ==> pair_at(a1, r, #[trigger] pair_at(a1, r, j)) == j,
{
    broadcast use vstd::multiset::group_multiset_axioms;

    lemma_output_events_distinct(a0, s);
    output_events(a0, s).lemma_multiset_has_no_duplicates();
    r.lemma_multiset_has_no_duplicates_conv();
    assert forall|j: int| 0 <= j < r.len() implies pair_at(a1, r, #[trigger] pair_at(a1, r, j)) == j by {
        let x = r[j];
        let m = pair_at(a1, r, j);
        if r.contains(peer(a0, x)) {
            assert(r[m] == peer(a0, x));
            assert(wf_event(a0, x));
            assert(peer(a0, r[m]) == x);
            assert(r.contains(peer(a0, r[m])));
            assert(r[pair_at(a1, r, m)] == x);
        }
    }
}

/// Stitch the events of `sorted_events` that belong in the output into
/// contours.
///
/// Every such event is labelled with a contour that runs through its
/// segment ([`on_contour`]), and the two events of an output segment carry
/// the same label; each contour has at least two points, all of them
/// points of such events, each after the first reached by crossing an
/// output segment ([`walked`]); and the contours form a hole hierarchy
/// (see [`hole_tree`]). When the output segments form closed paths
/// ([`closed_paths`]), every contour is closed: its last point is its
/// first. An open chain of output segments gives an open contour.
#[verifier::rlimit(100)]
#[verifier::spinoff_prover]
pub fn connect_edges(arena: &mut Vec<SweepEvent>, sorted_events: &Vec<usize>) -> (contours: Vec<Contour>)
    requires
        wf_arena(old(arena)@),
        old(arena)@.len() <= usize::MAX,
        indices_in(old(arena)@, sorted_events@),
        pairs_closed(old(arena)@, sorted_events@),
        output_ready(old(arena)@),
        sorted_events@.no_duplicates(),
        sorted_events@.len() <= i32::MAX,
    ensures
        hole_tree(contours@),
        forall|c: int| 0 <= c < contours@.len() ==> (#[trigger] contours@[c]).points@.len() >= 2,
        forall|k: int|
            0 <= k < sorted_events@.len() && in_output(old(arena)@, #[trigger] sorted_events@[k]) ==> 0
                <= final(arena)@[sorted_events@[k] as int].output_contour_id < contours@.len(),
        forall|c: int, j: int|
            0 <= c < contours@.len() && 0 <= j < contours@[c].points@.len() ==> output_point(
                old(arena)@,
                sorted_events@,
                #[trigger] contours@[c].points@[j],
            ),
        final(arena)@.len() == old(arena)@.len(),
        forall|i: int| 0 <= i < old(arena)@.len() ==> (#[trigger] final(arena)@[i]).point == old(arena)@[i].point,
        forall|c: int, t: int|
            0 <= c < contours@.len() && 0 < t < contours@[c].points@.len() ==> #[trigger] walked(
                old(arena)@,
                sorted_events@,
                contours@[c].points@,
                t,
            ),
        forall|k: int|
            0 <= k < sorted_events@.len() && in_output(old(arena)@, #[trigger] sorted_events@[k]) ==> on_contour(
                contours@,
                final(arena)@[sorted_events@[k] as int].output_contour_id as int,
                old(arena)@,
                sorted_events@,
                sorted_events@[k],
            ),
        forall|k: int|
            0 <= k < sorted_events@.len() && in_output(old(arena)@, #[trigger] sorted_events@[k]) && output_events(
                old(arena)@,
                sorted_events@,
            ).contains(peer(old(arena)@, sorted_events@[k])) ==> final(arena)@[peer(
                old(arena)@,
                sorted_events@[k],
            ) as int].output_contour_id == final(arena)@[sorted_events@[k] as int].output_contour_id,
        closed_paths(old(arena)@, sorted_events@) ==> forall|c: int|
            0 <= c < contours@.len() ==> (#[trigger] contours@[c]).points@[0] == contours@[c].points@.last(),
{
    let ghost a0 = arena@;
    let ghost cp = closed_paths(a0, sorted_events@);
    let result_events = order_events(arena, sorted_events);
    let ghost a1 = arena@;
    let ghost r = result_events@;
    let n = result_events.len();
    let mut processed: Vec<bool> = Vec::new();
    let mut k: usize = 0;
    while k < n
        invariant
            k <= n,
            processed@.len() == k,
            forall|j: int| 0 <= j < k ==> !#[trigger] processed@[j],
        decreases n - k,
    {
        processed.push(false);
        k = k + 1;
    }
    proof {
        assert forall|j: int| 0 <= j < n implies #[trigger] r[j] < a0.len() by {}
        lemma_walk_pairs(a0, a1, r, sorted_events@);
        assert(walk_sorted(a0, r)) by {
            reveal(walk_sorted);
        }
        assert(all_even(a0, r, processed@)) by {
            reveal(all_even);
            assert forall|p: Position| #[trigger] done_at(a0, r, processed@, p, n as int) % 2 == 0 by {
                lemma_done_none(a0, r, processed@, p, n as int);
            }
        }
        if closed_paths(a0, sorted_events@) {
            broadcast use vstd::seq_lib::to_multiset_contains;
            assert forall|k: int| 0 <= k < n implies r.contains(peer(a0, #[trigger] r[k])) by {
                let x = r[k];
                let outs = output_events(a0, sorted_events@);
                assert(r.contains(x));
                assert(r.to_multiset().count(x) == outs.to_multiset().count(x));
                lemma_output_events(a0, sorted_events@, x);
                let kk = choose|kk: int| 0 <= kk < sorted_events@.len() && sorted_events@[kk] == x;
                assert(in_output(a0, sorted_events@[kk]));
                assert(outs.contains(peer(a0, x)));
                assert(r.to_multiset().count(peer(a0, x)) == outs.to_multiset().count(peer(a0, x)));
            }
            assert(ends_even(a0, r)) by {
                reveal(ends_even);
                assert forall|p: Position| #[trigger] ends_at(a0, r, p) % 2 == 0 by {
                    lemma_ends_perm(a0, r, output_events(a0, sorted_events@), p);
                }
            }
        }
        assert forall|j: int| 0 <= j < n implies #[trigger] pair_done(a1, arena@, processed@, r, j) by {
            assert(!processed@[j]);
            assert(!processed@[pair_at(a1, r, j)]);
        }
    }
    let mut contours: Vec<Contour> = Vec::new();
    let mut i: usize = 0;
    while i < n
        invariant
            n == r.len(),
            r == result_events@,
            n <= i32::MAX,
            i <= n,
            processed@.len() == n,
            forall|j: int| 0 <= j < i ==> #[trigger] processed@[j],
            same_but_contour_ids(a1, arena@),
            same_but_other_pos(a0, a1),
            output_ready(a0),
            forall|j: int| 0 <= j < n ==> #[trigger] r[j] < a0.len() && 0 <= a1[r[j] as int].other_pos < n,
            contours@.len() <= i,
            hole_tree(contours@),
            forall|j: int| 0 <= j < arena@.len() ==> (#[trigger] arena@[j]).output_contour_id < contours@.len(),
            forall|j: int| 0 <= j < n && #[trigger] processed@[j] ==> 0 <= arena@[r[j] as int].output_contour_id < contours@.len(),
            forall|c: int| 0 <= c < contours@.len() ==> (#[trigger] contours@[c]).points@.len() >= 2,
            forall|c: int, j: int|
                0 <= c < contours@.len() && 0 <= j < contours@[c].points@.len() ==> exists|m: int|
                    0 <= m < n && a0[r[m] as int].point == #[trigger] contours@[c].points@[j],
            r.to_multiset() == output_events(a0, sorted_events@).to_multiset(),
            forall|k: int| 0 <= k < n && r.contains(peer(a0, #[trigger] r[k])) ==> r[a1[r[k] as int].other_pos as int] == peer(a0, r[k]),
            forall|k: int| 0 <= k < n && !r.contains(peer(a0, #[trigger] r[k])) ==> a1[r[k] as int].other_pos == k,
            forall|c: int, t: int|
                0 <= c < contours@.len() && 0 < t < contours@[c].points@.len() ==> #[trigger] walked(a0, sorted_events@, contours@[c].points@, t),
            r.no_duplicates(),
            forall|j: int| 0 <= j < n ==> pair_at(a1, r, #[trigger] pair_at(a1, r, j)) == j,
            forall|j: int| 0 <= j < n ==> #[trigger] pair_done(a1, arena@, processed@, r, j),
            forall|j: int|
                0 <= j < n && #[trigger] processed@[j] ==> on_contour(
                    contours@,
                    arena@[r[j] as int].output_contour_id as int,
                    a0,
                    sorted_events@,
                    r[j],
                ),
            walk_sorted(a0, r),
            wf_arena(a0),
            cp ==> forall|k: int| 0 <= k < n ==> r.contains(peer(a0, #[trigger] r[k])),
            cp ==> ends_even(a0, r),
            cp ==> all_even(a0, r, processed@),
            cp ==> forall|c: int|
                0 <= c < contours@.len() ==> (#[trigger] contours@[c]).points@[0] == contours@[c].points@.last(),
        decreases n - i,
    {
        if processed[i] {
            i = i + 1;
            continue;
        }
        let contour_id = contours.len() as i32;
        let ghost cs0 = contours@;
        proof {
            assert(arena@[r[i as int] as int].prev_in_result == a0[r[i as int] as int].prev_in_result);
        }
        let mut contour = initialize_contour_from_context(arena, result_events[i], &mut contours, contour_id);
        let ghost c0 = contour;
        let mut pos = i;
        let orig_pos = i;
        let initial_point = arena[result_events[pos]].point;
        contour.points.push(initial_point);
        proof {
            assert forall|j: int| 0 <= j < n && #[trigger] processed@[j] implies on_contour(
                contours@,
                arena@[r[j] as int].output_contour_id as int,
                a0,
                sorted_events@,
                r[j],
            ) by {
                let c = arena@[r[j] as int].output_contour_id as int;
                assert(on_contour(cs0, c, a0, sorted_events@, r[j]));
                assert(contours@[c].points == cs0[c].points);
            }
            if cp {
                lemma_walk_start(a0, r, processed@, i as int);
                assert forall|c: int| 0 <= c < contours@.len() implies (#[trigger] contours@[c]).points@[0]
                    == contours@[c].points@.last() by {
                    assert(contours@[c].points == cs0[c].points);
                    assert(cs0[c].points@[0] == cs0[c].points@.last());
                }
            }
        }
        loop
            invariant_except_break
                !processed@[pos as int],
            invariant
                n == r.len(),
                r == result_events@,
                n <= i32::MAX,
                i < n,
                orig_pos == i,
                pos < n,
                pos == orig_pos || processed@[orig_pos as int],
                processed@.len() == n,
                forall|j: int| 0 <= j < i ==> #[trigger] processed@[j],
                same_but_contour_ids(a1, arena@),
                same_but_other_pos(a0, a1),
                forall|j: int| 0 <= j < n ==> #[trigger] r[j] < a0.len() && 0 <= a1[r[j] as int].other_pos < n,
                contour_id == contours@.len(),
                contours@.len() <= i,
                hole_tree(contours@.push(c0)),
                contour.hole_of == c0.hole_of,
                contour.depth == c0.depth,
                contour.hole_ids@ == c0.hole_ids@,
                contour.points@.len() >= 1,
                forall|j: int| 0 <= j < arena@.len() ==> (#[trigger] arena@[j]).output_contour_id <= contours@.len(),
                forall|j: int| 0 <= j < n && #[trigger] processed@[j] ==> 0 <= arena@[r[j] as int].output_contour_id <= contours@.len(),
                forall|c: int| 0 <= c < contours@.len() ==> (#[trigger] contours@[c]).points@.len() >= 2,
                forall|c: int, j: int|
                    0 <= c < contours@.len() && 0 <= j < contours@[c].points@.len() ==> exists|m: int|
                        0 <= m < n && a0[r[m] as int].point == #[trigger] contours@[c].points@[j],
                forall|j: int|
                    0 <= j < contour.points@.len() ==> exists|m: int| 0 <= m < n && a0[r[m] as int].point == #[trigger] contour.points@[j],
                r.to_multiset() == output_events(a0, sorted_events@).to_multiset(),
                forall|k: int| 0 <= k < n && r.contains(peer(a0, #[trigger] r[k])) ==> r[a1[r[k] as int].other_pos as int] == peer(a0, r[k]),
                forall|k: int| 0 <= k < n && !r.contains(peer(a0, #[trigger] r[k])) ==> a1[r[k] as int].other_pos == k,
                forall|c: int, t: int|
                    0 <= c < contours@.len() && 0 < t < contours@[c].points@.len() ==> #[trigger] walked(a0, sorted_events@, contours@[c].points@, t),
                forall|t: int| 0 < t < contour.points@.len() ==> #[trigger] walked(a0, sorted_events@, contour.points@, t),
                contour.points@.len() == 1 ==> pos == orig_pos,
                contour.points@[0] == a0[r[orig_pos as int] as int].point,
                r.no_duplicates(),
                forall|j: int| 0 <= j < n ==> pair_at(a1, r, #[trigger] pair_at(a1, r, j)) == j,
                forall|j: int| 0 <= j < n ==> #[trigger] pair_done(a1, arena@, processed@, r, j),
                forall|j: int|
                    0 <= j < n && #[trigger] processed@[j] ==> on_contour(
                        contours@,
                        arena@[r[j] as int].output_contour_id as int,
                        a0,
                        sorted_events@,
                        r[j],
                    ) || (arena@[r[j] as int].output_contour_id == contour_id && (contour.points@.contains(
                        a0[r[j] as int].point,
                    ) || contour.points@.contains(crossed_point(a0, sorted_events@, r[j])))),
                walk_sorted(a0, r),
                wf_arena(a0),
                cp ==> forall|k: int| 0 <= k < n ==> r.contains(peer(a0, #[trigger] r[k])),
                cp ==> ends_even(a0, r),
                cp ==> contour.points@.last() == point_at(a0, r, pos as int),
                cp ==> walk_parity(a0, r, processed@, pos as int, orig_pos as int),
                cp ==> forall|c: int|
                    0 <= c < contours@.len() ==> (#[trigger] contours@[c]).points@[0] == contours@[c].points@.last(),
            ensures
                contour.points@.len() >= 2,
                processed@[orig_pos as int],
                cp ==> contour.points@.last() == contour.points@[0],
                cp ==> all_even(a0, r, processed@),
            decreases count_open(processed@),
        {
            proof {
                lemma_count_open(processed@, pos as int);
            }
            let ghost pre_p = processed@;
            let ghost pre_a = arena@;
            mark_processed(arena, &result_events, &mut processed, pos, contour_id);
            let next_pos_idx = arena[result_events[pos]].other_pos;
            let ghost from = pos;
            pos = next_pos_idx as usize;
            let ghost before = processed@;
            proof {
                lemma_count_open(processed@, pos as int);
            }
            mark_processed(arena, &result_events, &mut processed, pos, contour_id);
            let q = arena[result_events[pos]].point;
            let ghost pts0 = contour.points@;
            contour.points.push(q);
            proof {
                assert(a0[r[pos as int] as int].point == q);
                let e = r[from as int];
                let outs = output_events(a0, sorted_events@);
                broadcast use vstd::seq_lib::to_multiset_contains;
                assert(r.contains(e));
                assert(outs.contains(e)) by {
                    assert(r.to_multiset().count(e) > 0);
                }
                lemma_output_events(a0, sorted_events@, e);
                let j = choose|j: int| 0 <= j < sorted_events@.len() && sorted_events@[j] == e;
                assert(r.contains(peer(a0, e)) <==> outs.contains(peer(a0, e))) by {
                    assert(r.to_multiset().count(peer(a0, e)) == outs.to_multiset().count(peer(a0, e)));
                }
                assert(arena@[e as int].other_pos == a1[e as int].other_pos);
                assert(q == crossed_point(a0, sorted_events@, e));
                let tn = contour.points@.len() - 1;
                assert(walked(a0, sorted_events@, contour.points@, tn)) by {
                    assert(in_output(a0, sorted_events@[j]));
                }
                assert forall|t: int| 0 < t < contour.points@.len() implies #[trigger] walked(a0, sorted_events@, contour.points@, t) by {
                    if t < tn {
                        assert(walked(a0, sorted_events@, pts0, t));
                        let jj = choose|jj: int|
                            0 <= jj < sorted_events@.len() && in_output(a0, #[trigger] sorted_events@[jj]) && pts0[t] == crossed_point(a0, sorted_events@, sorted_events@[jj]) && (t == 1
                                ==> pts0[0] == a0[sorted_events@[jj] as int].point);
                        assert(contour.points@[t] == pts0[t]);
                        assert(contour.points@[0] == pts0[0]);
                    }
                }
            }
            proof {
                let f = from as int;
                let t = pos as int;
                let s0 = sorted_events@;
                assert(pre_a[r[f] as int].other_pos == a1[r[f] as int].other_pos);
                assert(t == pair_at(a1, r, f));
                assert(pair_at(a1, r, t) == f);
                assert(pair_done(a1, pre_a, pre_p, r, f));
                assert(!pre_p[t]);
                assert forall|j: int| 0 <= j < n implies #[trigger] pair_done(a1, arena@, processed@, r, j) by {
                    assert(pair_done(a1, pre_a, pre_p, r, j));
                    let pj = pair_at(a1, r, j);
                    assert(pair_at(a1, r, pj) == j);
                    if j != f && j != t {
                        assert(pj != f && pj != t);
                        assert(r[j] != r[f] && r[j] != r[t]);
                        assert(r[pj] != r[f] && r[pj] != r[t]);
                        assert(processed@[j] == pre_p[j]);
                        assert(processed@[pj] == pre_p[pj]);
                        assert(arena@[r[j] as int] == pre_a[r[j] as int]);
                        assert(arena@[r[pj] as int] == pre_a[r[pj] as int]);
                    }
                }
                assert forall|j: int| 0 <= j < n && #[trigger] processed@[j] implies on_contour(
                    contours@,
                    arena@[r[j] as int].output_contour_id as int,
                    a0,
                    s0,
                    r[j],
                ) || (arena@[r[j] as int].output_contour_id == contour_id && (contour.points@.contains(
                    a0[r[j] as int].point,
                ) || contour.points@.contains(crossed_point(a0, s0, r[j])))) by {
                    vstd::seq_lib::lemma_seq_contains_after_push(pts0, q, a0[r[j] as int].point);
                    vstd::seq_lib::lemma_seq_contains_after_push(pts0, q, crossed_point(a0, s0, r[j]));
                    if j == f {
                        assert(arena@[r[j] as int].output_contour_id == contour_id);
                        assert(q == crossed_point(a0, s0, r[f]));
                    } else if j == t {
                        assert(arena@[r[j] as int].output_contour_id == contour_id);
                        assert(q == a0[r[t] as int].point);
                    } else {
                        assert(r[j] != r[f] && r[j] != r[t]);
                        assert(pre_p[j]);
                        assert(arena@[r[j] as int] == pre_a[r[j] as int]);
                    }
                }
            }
            proof {
                if cp {
                    let f = from as int;
                    let t = pos as int;
                    assert(r.contains(peer(a0, r[f])));
                    assert(r[t] == peer(a0, r[f]));
                    assert(processed@ == pre_p.update(f, true).update(t, true));
                    assert(points_of(arena@, r) =~= points_of(a0, r)) by {
                        assert forall|k: int| 0 <= k < n implies #[trigger] points_of(arena@, r)[k] == points_of(a0, r)[k] by {
                            assert(arena@[r[k] as int].point == a1[r[k] as int].point);
                        }
                    }
                    lemma_walk_step(a0, r, pre_p, processed@, f, t, orig_pos as int);
                    if point_at(a0, r, t) == point_at(a0, r, orig_pos as int) {
                        lemma_walk_end(a0, r, processed@, t, orig_pos as int);
                    }
                }
            }
            match next_pos(arena, pos, &result_events, &processed, orig_pos) {
                None => break,
                Some(np) if np == orig_pos => break,
                Some(np) => {
                    proof {
                        if cp {
                            lemma_walk_same_point(a0, r, processed@, pos as int, np as int, orig_pos as int);
                        }
                    }
                    pos = np;
                },
            }
        }
        proof {
            lemma_tree_points(contours@, c0, contour);
        }
        let ghost cs1 = contours@;
        contours.push(contour);
        proof {
            assert forall|j: int| 0 <= j < n && #[trigger] processed@[j] implies on_contour(
                contours@,
                arena@[r[j] as int].output_contour_id as int,
                a0,
                sorted_events@,
                r[j],
            ) by {
                let c = arena@[r[j] as int].output_contour_id as int;
                if c < cs1.len() && on_contour(cs1, c, a0, sorted_events@, r[j]) {
                    assert(contours@[c] == cs1[c]);
                } else {
                    assert(c == contour_id);
                    assert(contours@[c] == contour);
                }
            }
            assert forall|c: int| 0 <= c < contours@.len() implies (#[trigger] contours@[c]).points@[0] == contours@[c].points@.last()
                || !cp by {
                if c < cs1.len() {
                    assert(contours@[c] == cs1[c]);
                }
            }
        }
        i = i + 1;
    }
    proof {
        lemma_output_events(a0, sorted_events@, 0);
        assert forall|k: int|
            0 <= k < sorted_events@.len() && in_output(a0, #[trigger] sorted_events@[k]) implies 0
                <= arena@[sorted_events@[k] as int].output_contour_id < contours@.len() by {
            let x = sorted_events@[k];
            broadcast use vstd::seq_lib::to_multiset_contains;
            lemma_output_events(a0, sorted_events@, x);
            assert(sorted_events@.contains(x));
            assert(output_events(a0, sorted_events@).contains(x));
            assert(r.to_multiset().count(x) > 0);
            let m = choose|m: int| 0 <= m < n && r[m] == x;
            assert(processed@[m]);
        }
        assert forall|k: int|
            0 <= k < sorted_events@.len() && in_output(a0, #[trigger] sorted_events@[k]) implies on_contour(
                contours@,
                arena@[sorted_events@[k] as int].output_contour_id as int,
                a0,
                sorted_events@,
                sorted_events@[k],
            ) && (output_events(a0, sorted_events@).contains(peer(a0, sorted_events@[k])) ==> arena@[peer(
                a0,
                sorted_events@[k],
            ) as int].output_contour_id == arena@[sorted_events@[k] as int].output_contour_id) by {
            let x = sorted_events@[k];
            broadcast use vstd::seq_lib::to_multiset_contains;
            lemma_output_events(a0, sorted_events@, x);
            assert(sorted_events@.contains(x));
            assert(output_events(a0, sorted_events@).contains(x));
            assert(r.to_multiset().count(x) > 0);
            let m = choose|m: int| 0 <= m < n && r[m] == x;
            assert(processed@[m]);
            assert(pair_done(a1, arena@, processed@, r, m));
            if output_events(a0, sorted_events@).contains(peer(a0, x)) {
                assert(r.to_multiset().count(peer(a0, x)) == output_events(a0, sorted_events@).to_multiset().count(peer(a0, x)));
                assert(r.contains(peer(a0, x)));
                assert(r[pair_at(a1, r, m)] == peer(a0, x));
            }
        }
        assert forall|c: int, j: int|
            0 <= c < contours@.len() && 0 <= j < contours@[c].points@.len() implies output_point(
                a0,
                sorted_events@,
                #[trigger] contours@[c].points@[j],
            ) by {
            let m = choose|m: int| 0 <= m < n && a0[r[m] as int].point == contours@[c].points@[j];
            let x = r[m];
            broadcast use vstd::seq_lib::to_multiset_contains;
            assert(r.to_multiset().count(x) > 0);
            assert(output_events(a0, sorted_events@).contains(x));
            lemma_output_events(a0, sorted_events@, x);
            let k = choose|k: int| 0 <= k < sorted_events@.len() && sorted_events@[k] == x;
            assert(in_output(a0, sorted_events@[k]) && a0[sorted_events@[k] as int].point == contours@[c].points@[j]);
        }
    }
    contours
}

} // verus!
