//! Sweep-time intersection handling for two segments that have become
//! neighbours on the sweep line.
//!
//! - No intersection: nothing to do.
//! - One point: each segment that the point does not end is split there,
//!   unless the two segments already share their left or right endpoint.
//! - Collinear overlap of segments of different polygons: the overlap is
//!   marked (one segment stops contributing, the other records whether
//!   the two polygons make the same or a different transition there) and
//!   the segments are split so the overlapping part becomes shared.
//!
//! The returned code is `0` (nothing contributing), `1` (point), `2`
//! (overlap sharing the left endpoint) or `3` (other overlaps).
use crate::compare_events::{comes_after, event_after};
use crate::divide_segment::{divide_segment, divided, lemma_divided_linked};
use crate::compute_fields::contributes;
use crate::edge_type::EdgeType;
use crate::operation::{in_result_region, Operation};
use crate::equals::equals;
use crate::event_queue::{all_linked, heap_ordered, lemma_heap_frame, lemma_linked_comparable, EventQueue};
use crate::fill_queue::index_range;
use crate::segment_intersection::{intersection, seg_inter, SegmentIntersection};
use crate::sweep_event::{ev, has_peer, indices_in, linked_arena, linked_event, peer, peer_point, PolygonType, SweepEvent};
use crate::types::Position;
use vstd::prelude::*;

verus! {

/// The endpoints involved in a collinear overlap of the segments of `se1`
/// and `se2`, in event order: the two left endpoints unless they
/// coincide, then the two right endpoints unless they coincide.
pub open spec fn overlap_order(a: Seq<SweepEvent>, se1: usize, se2: usize) -> Seq<usize> {
    let o1 = peer(a, se1);
    let o2 = peer(a, se2);
    let lefts = if ev(a, se1).point == ev(a, se2).point {
        Seq::<usize>::empty()
    } else if event_after(a, se1, se2) {
        seq![se2, se1]
    } else {
        seq![se1, se2]
    };
    let rights = if ev(a, o1).point == ev(a, o2).point {
        Seq::<usize>::empty()
    } else if event_after(a, o1, o2) {
        seq![o2, o1]
    } else {
        seq![o1, o2]
    };
    lefts + rights
}

/// The arena after marking an overlap with a shared left endpoint: `se2`
/// stops contributing, and `se1` records whether both polygons make the
/// same transition there.
pub open spec fn marked_shared_left(a: Seq<SweepEvent>, se1: usize, se2: usize) -> Seq<SweepEvent> {
    let a1 = a.update(se2 as int, SweepEvent { edge_type: EdgeType::NonContributing, ..ev(a, se2) });
    let same = ev(a1, se1).in_out == ev(a1, se2).in_out;
    a1.update(
        se1 as int,
        SweepEvent {
            edge_type: if same { EdgeType::SameTransition } else { EdgeType::DifferentTransition },
            ..ev(a1, se1)
        },
    )
}

/// The arena after splitting an overlap without shared endpoints, given
/// its four endpoints in event order: partial overlaps split each segment
/// at the other's nearer endpoint; a segment containing the other is split
/// at both of the other's endpoints.
pub open spec fn apart_outcome(a: Seq<SweepEvent>, evs: Seq<usize>) -> Seq<SweepEvent> {
    let d1 = divided(a, evs[0], ev(a, evs[1]).point);
    if evs[0] != peer(a, evs[3]) {
        divided(d1, evs[1], ev(d1, evs[2]).point)
    } else {
        divided(d1, peer(d1, evs[3]), ev(d1, evs[2]).point)
    }
}

/// The outcome (arena and code) of handling a collinear overlap of the
/// segments of `se1` and `se2`.
pub open spec fn overlap_outcome(a: Seq<SweepEvent>, se1: usize, se2: usize) -> (Seq<SweepEvent>, i32) {
    let left_co = ev(a, se1).point == ev(a, se2).point;
    let right_co = peer_point(a, se1) == peer_point(a, se2);
    let evs = overlap_order(a, se1, se2);
    if left_co {
        let a2 = marked_shared_left(a, se1, se2);
        if !right_co {
            (divided(a2, peer(a2, evs[1]), ev(a2, evs[0]).point), 2)
        } else {
            (a2, 2)
        }
    } else if right_co {
        (divided(a, evs[0], ev(a, evs[1]).point), 3)
    } else {
        (apart_outcome(a, evs), 3)
    }
}

/// The outcome (arena and code) of testing the segments of `se1` and
/// `se2` for intersection.
pub open spec fn intersection_outcome(a: Seq<SweepEvent>, se1: usize, se2: usize) -> (Seq<SweepEvent>, i32) {
    let p1 = ev(a, se1).point;
    let q1 = peer_point(a, se1);
    let p2 = ev(a, se2).point;
    let q2 = peer_point(a, se2);
    match seg_inter(p1, q1, p2, q2, false) {
        SegmentIntersection::NoIntersection => (a, 0),
        SegmentIntersection::Point(p) => {
            if p1 == p2 || q1 == q2 {
                (a, 0)
            } else {
                let a1 = if p != p1 && p != q1 {
                    divided(a, se1, p)
                } else {
                    a
                };
                let a2 = if p != p2 && p != q2 {
                    divided(a1, se2, p)
                } else {
                    a1
                };
                (a2, 1)
            }
        },
        SegmentIntersection::Overlap(_, _) => {
            if (ev(a, se1).polygon_type == PolygonType::Subject) == (ev(a, se2).polygon_type
                == PolygonType::Subject) {
                (a, 0)
            } else {
                overlap_outcome(a, se1, se2)
            }
        },
    }
}

/// Split the segment of `e` at `p` and queue both new events.
fn divide_and_queue(arena: &mut Vec<SweepEvent>, queue: &mut EventQueue, e: usize, p: Position)
    requires
        linked_arena(old(arena)@),
        e < old(arena)@.len(),
        indices_in(old(arena)@, old(queue)@),
    ensures
        final(arena)@ == divided(old(arena)@, e, p),
        final(arena)@.len() == old(arena)@.len() + 2,
        linked_arena(final(arena)@),
        indices_in(final(arena)@, final(queue)@),
        final(queue)@.to_multiset() == old(queue)@.to_multiset().add(
            index_range(old(arena)@.len() as int, final(arena)@.len() as int).to_multiset(),
        ),
        heap_ordered(old(arena)@, old(queue)@) ==> heap_ordered(final(arena)@, final(queue)@),
{
    let ghost a0 = arena@;
    let ghost q0 = queue@;
    proof {
        assert(linked_event(a0, e));
        assert(linked_event(a0, peer(a0, e)));
    }
    let (l, r) = divide_segment(arena, e, p);
    proof {
        lemma_divided_linked(a0, e, p);
        if heap_ordered(a0, q0) {
            assert forall|k: int| 0 <= k < q0.len() implies arena@[#[trigger] q0[k] as int].point == a0[q0[k] as int].point by {
                assert(q0[k] < a0.len());
            }
            lemma_heap_frame(a0, arena@, q0);
        }
        assert forall|j: int| 0 <= j < queue@.push(l).len() implies has_peer(arena@, #[trigger] queue@.push(l)[j]) by {
            let x = queue@.push(l)[j];
            assert(x < arena@.len());
            assert(linked_event(arena@, x));
        }
        lemma_linked_comparable(arena@, queue@.push(l));
    }
    queue.push(arena, l);
    proof {
        assert forall|j: int| 0 <= j < queue@.len() implies #[trigger] queue@[j] < arena@.len() by {
            assert(queue@.contains(queue@[j]));
        }
        assert forall|j: int| 0 <= j < queue@.push(r).len() implies has_peer(arena@, #[trigger] queue@.push(r)[j]) by {
            let x = queue@.push(r)[j];
            assert(x < arena@.len());
            assert(linked_event(arena@, x));
        }
        lemma_linked_comparable(arena@, queue@.push(r));
    }
    queue.push(arena, r);
    proof {
        assert forall|j: int| 0 <= j < queue@.len() implies #[trigger] queue@[j] < arena@.len() by {
            assert(queue@.contains(queue@[j]));
        }
        broadcast use vstd::multiset::group_multiset_axioms;
        broadcast use vstd::seq_lib::to_multiset_build;
        let e0 = Seq::<usize>::empty();
        assert(index_range(a0.len() as int, arena@.len() as int) =~= e0.push(r).push(l));
        assert(e0.to_multiset() =~= vstd::multiset::Multiset::empty()) by {
            broadcast use vstd::seq_lib::group_to_multiset_ensures;
            assert(e0.to_multiset().len() == 0);
        }
        assert(queue@.to_multiset() =~= q0.to_multiset().add(e0.push(r).push(l).to_multiset()));
    }
}

/// Test the segments of the sweep-line neighbours `se1_idx` and `se2_idx`
/// for intersection, and split or mark them as the algorithm requires.
pub fn possible_intersection(arena: &mut Vec<SweepEvent>, queue: &mut EventQueue, se1_idx: usize, se2_idx: usize) -> (r: i32)
    requires
        linked_arena(old(arena)@),
        se1_idx < old(arena)@.len(),
        se2_idx < old(arena)@.len(),
        indices_in(old(arena)@, old(queue)@),
    ensures
        final(arena)@ == intersection_outcome(old(arena)@, se1_idx, se2_idx).0,
        r == intersection_outcome(old(arena)@, se1_idx, se2_idx).1,
        linked_arena(final(arena)@),
        indices_in(final(arena)@, final(queue)@),
        final(queue)@.to_multiset() == old(queue)@.to_multiset().add(
            index_range(old(arena)@.len() as int, final(arena)@.len() as int).to_multiset(),
        ),
        heap_ordered(old(arena)@, old(queue)@) ==> heap_ordered(final(arena)@, final(queue)@),
{
    let ghost a0 = arena@;
    let ghost q0 = queue@;
    proof {
        assert(linked_event(a0, se1_idx));
        assert(linked_event(a0, se2_idx));
        crate::fill_queue::lemma_add_empty_range(q0.to_multiset(), a0.len() as int);
    }
    let se1_pt = arena[se1_idx].point;
    let se2_pt = arena[se2_idx].point;
    let se1_other_idx = match arena[se1_idx].other_event {
        Some(j) => j,
        None => {
            return 0;
        },
    };
    let se2_other_idx = match arena[se2_idx].other_event {
        Some(j) => j,
        None => {
            return 0;
        },
    };
    let se1_other_pt = arena[se1_other_idx].point;
    let se2_other_pt = arena[se2_other_idx].point;

    let inter = intersection(se1_pt, se1_other_pt, se2_pt, se2_other_pt, false);

    match inter {
        SegmentIntersection::NoIntersection => 0,
        SegmentIntersection::Point(p) => {
            if equals(se1_pt, se2_pt) || equals(se1_other_pt, se2_other_pt) {
                return 0;
            }
            if !equals(se1_pt, p) && !equals(se1_other_pt, p) {
                divide_and_queue(arena, queue, se1_idx, p);
            }
            let ghost a1 = arena@;
            let ghost q1 = queue@;
            if !equals(se2_pt, p) && !equals(se2_other_pt, p) {
                divide_and_queue(arena, queue, se2_idx, p);
                proof {
                    broadcast use vstd::multiset::group_multiset_axioms;
                    let r1 = index_range(a0.len() as int, a1.len() as int);
                    let r2 = index_range(a1.len() as int, arena@.len() as int);
                    assert(index_range(a0.len() as int, arena@.len() as int) =~= r1 + r2);
                    vstd::seq_lib::lemma_multiset_commutative(r1, r2);
                    assert(queue@.to_multiset() =~= q0.to_multiset().add(r1.to_multiset()).add(r2.to_multiset()));
                }
            }
            1
        },
        SegmentIntersection::Overlap(_, _) => {
            if arena[se1_idx].is_subject() == arena[se2_idx].is_subject() {
                return 0;
            }
            handle_overlap(arena, queue, se1_idx, se2_idx)
        },
    }
}

/// The collinear-overlap cases of [`possible_intersection`].
fn handle_overlap(arena: &mut Vec<SweepEvent>, queue: &mut EventQueue, se1_idx: usize, se2_idx: usize) -> (r: i32)
    requires
        linked_arena(old(arena)@),
        se1_idx < old(arena)@.len(),
        se2_idx < old(arena)@.len(),
        indices_in(old(arena)@, old(queue)@),
    ensures
        final(arena)@ == overlap_outcome(old(arena)@, se1_idx, se2_idx).0,
        r == overlap_outcome(old(arena)@, se1_idx, se2_idx).1,
        linked_arena(final(arena)@),
        indices_in(final(arena)@, final(queue)@),
        final(queue)@.to_multiset() == old(queue)@.to_multiset().add(
            index_range(old(arena)@.len() as int, final(arena)@.len() as int).to_multiset(),
        ),
        heap_ordered(old(arena)@, old(queue)@) ==> heap_ordered(final(arena)@, final(queue)@),
{
    let ghost a0 = arena@;
    proof {
        assert(linked_event(a0, se1_idx));
        assert(linked_event(a0, se2_idx));
        crate::fill_queue::lemma_add_empty_range(queue@.to_multiset(), a0.len() as int);
    }
    let (events, left_coincide, right_coincide) = overlap_events(arena, se1_idx, se2_idx);
    if left_coincide {
        let ghost q0 = queue@;
        mark_shared_left(arena, se1_idx, se2_idx);
        proof {
            if heap_ordered(a0, q0) {
                assert forall|k: int| 0 <= k < q0.len() implies arena@[#[trigger] q0[k] as int].point == a0[q0[k] as int].point by {
                    assert(q0[k] < a0.len());
                }
                lemma_heap_frame(a0, arena@, q0);
            }
        }
        if !right_coincide {
            let target_other = match arena[events[1]].other_event {
                Some(j) => j,
                None => {
                    return 2;
                },
            };
            let split_at = arena[events[0]].point;
            divide_and_queue(arena, queue, target_other, split_at);
        }
        return 2;
    }
    if right_coincide {
        let split_at = arena[events[1]].point;
        divide_and_queue(arena, queue, events[0], split_at);
        return 3;
    }
    split_apart(arena, queue, &events);
    3
}

/// The endpoints of an overlap in event order, and whether the left and
/// the right endpoints coincide.
fn overlap_events(arena: &Vec<SweepEvent>, se1_idx: usize, se2_idx: usize) -> (res: (Vec<usize>, bool, bool))
    requires
        linked_arena(arena@),
        se1_idx < arena@.len(),
        se2_idx < arena@.len(),
    ensures
        res.0@ == overlap_order(arena@, se1_idx, se2_idx),
        res.1 == (ev(arena@, se1_idx).point == ev(arena@, se2_idx).point),
        res.2 == (peer_point(arena@, se1_idx) == peer_point(arena@, se2_idx)),
        res.0@.len() == (if res.1 { 0int } else { 2int }) + (if res.2 { 0int } else { 2int }),
        forall|k: int| 0 <= k < res.0@.len() ==> #[trigger] res.0@[k] < arena@.len(),
{
    proof {
        assert(linked_event(arena@, se1_idx));
        assert(linked_event(arena@, se2_idx));
        assert(linked_event(arena@, peer(arena@, se1_idx)));
        assert(linked_event(arena@, peer(arena@, se2_idx)));
    }
    let se1_other_idx = match arena[se1_idx].other_event {
        Some(j) => j,
        None => {
            return (Vec::new(), false, false);
        },
    };
    let se2_other_idx = match arena[se2_idx].other_event {
        Some(j) => j,
        None => {
            return (Vec::new(), false, false);
        },
    };
    let mut events: Vec<usize> = Vec::new();
    let left_coincide = equals(arena[se1_idx].point, arena[se2_idx].point);
    if left_coincide {
    } else if comes_after(arena, se1_idx, se2_idx) {
        events.push(se2_idx);
        events.push(se1_idx);
    } else {
        events.push(se1_idx);
        events.push(se2_idx);
    }
    let right_coincide = equals(arena[se1_other_idx].point, arena[se2_other_idx].point);
    if right_coincide {
    } else if comes_after(arena, se1_other_idx, se2_other_idx) {
        events.push(se2_other_idx);
        events.push(se1_other_idx);
    } else {
        events.push(se1_other_idx);
        events.push(se2_other_idx);
    }
    proof {
        assert(events@ =~= overlap_order(arena@, se1_idx, se2_idx));
    }
    (events, left_coincide, right_coincide)
}

/// Mark an overlap with a shared left endpoint; see [`marked_shared_left`].
fn mark_shared_left(arena: &mut Vec<SweepEvent>, se1_idx: usize, se2_idx: usize)
    requires
        linked_arena(old(arena)@),
        se1_idx < old(arena)@.len(),
        se2_idx < old(arena)@.len(),
    ensures
        final(arena)@ == marked_shared_left(old(arena)@, se1_idx, se2_idx),
        linked_arena(final(arena)@),
{
    let ghost a0 = arena@;
    let mut e2 = arena[se2_idx];
    e2.edge_type = EdgeType::NonContributing;
    arena.set(se2_idx, e2);
    let se1_in_out = arena[se1_idx].in_out;
    let se2_in_out = arena[se2_idx].in_out;
    let mut e1 = arena[se1_idx];
    e1.edge_type = if se1_in_out == se2_in_out {
        EdgeType::SameTransition
    } else {
        EdgeType::DifferentTransition
    };
    arena.set(se1_idx, e1);
    proof {
        assert forall|i: usize| i < arena@.len() implies #[trigger] linked_event(arena@, i) by {
            assert(linked_event(a0, i));
            assert(linked_event(a0, peer(a0, i)));
        }
    }
}

/// Split an overlap without shared endpoints; see [`apart_outcome`].
fn split_apart(arena: &mut Vec<SweepEvent>, queue: &mut EventQueue, events: &Vec<usize>)
    requires
        linked_arena(old(arena)@),
        events@.len() == 4,
        forall|k: int| 0 <= k < events@.len() ==> #[trigger] events@[k] < old(arena)@.len(),
        indices_in(old(arena)@, old(queue)@),
    ensures
        final(arena)@ == apart_outcome(old(arena)@, events@),
        linked_arena(final(arena)@),
        indices_in(final(arena)@, final(queue)@),
        final(queue)@.to_multiset() == old(queue)@.to_multiset().add(
            index_range(old(arena)@.len() as int, final(arena)@.len() as int).to_multiset(),
        ),
        heap_ordered(old(arena)@, old(queue)@) ==> heap_ordered(final(arena)@, final(queue)@),
{
    let ghost a0 = arena@;
    let ghost q0 = queue@;
    proof {
        assert(linked_event(a0, events@[3]));
    }
    let events3_other = match arena[events[3]].other_event {
        Some(j) => j,
        None => {
            return;
        },
    };
    let p1 = arena[events[1]].point;
    divide_and_queue(arena, queue, events[0], p1);
    let ghost a1 = arena@;
    if events[0] != events3_other {
        let p2 = arena[events[2]].point;
        divide_and_queue(arena, queue, events[1], p2);
    } else {
        proof {
            assert(linked_event(a1, events@[3]));
        }
        let events3_other_after = match arena[events[3]].other_event {
            Some(j) => j,
            None => {
                return;
            },
        };
        let p2 = arena[events[2]].point;
        divide_and_queue(arena, queue, events3_other_after, p2);
    }
    proof {
        broadcast use vstd::multiset::group_multiset_axioms;
        let r1 = index_range(a0.len() as int, a1.len() as int);
        let r2 = index_range(a1.len() as int, arena@.len() as int);
        assert(index_range(a0.len() as int, arena@.len() as int) =~= r1 + r2);
        vstd::seq_lib::lemma_multiset_commutative(r1, r2);
    }
}

/// An overlap of edges of the two inputs that share their left endpoint
/// is marked so that one copy contributes nothing and the other
/// contributes to exactly the operations whose result changes across the
/// shared edge. Both inputs cross that edge: each is inside on the side
/// its own in/out flag records, so both to the same side when the two
/// flags agree and to opposite sides otherwise. (An intersection or a
/// union of a polygon with itself keeps its edges; a difference or a xor
/// drops them.)
pub proof fn lemma_shared_edge_contributes(a: Seq<SweepEvent>, se1: usize, se2: usize, operation: Operation)
    requires
        se1 < a.len(),
        se2 < a.len(),
        ev(a, se1).polygon_type != ev(a, se2).polygon_type,
    ensures
        ({
            let m = marked_shared_left(a, se1, se2);
            let (s, c) = if ev(a, se1).polygon_type == PolygonType::Subject {
                (!ev(a, se1).in_out, !ev(a, se2).in_out)
            } else {
                (!ev(a, se2).in_out, !ev(a, se1).in_out)
            };
            &&& !contributes(ev(m, se2), operation)
            &&& contributes(ev(m, se1), operation) == (in_result_region(operation, s, c) != in_result_region(
                operation,
                !s,
                !c,
            ))
        }),
{
}

} // verus!
