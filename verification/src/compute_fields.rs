//! Per-event sweep-line classification.
//!
//! Called for an event once it is on the sweep line, with the event just
//! below it: sets whether the event is an inside-outside transition for
//! its own polygon and for the other one, the nearest event below it that
//! lies in the result, and the event's result transition. This is where
//! the four Boolean operations differ.
use crate::edge_type::EdgeType;
use crate::operation::{in_result_region, Operation};
use crate::segment_weight::{arena_weight, lemma_weight_same_links};
use crate::sweep_event::{ev, has_peer, lemma_wf_linked, output_ready, peer, peer_point, PolygonType, SweepEvent, wf_arena, wf_event};
use vstd::prelude::*;

verus! {

/// Whether an event with these flags contributes to the result of the
/// operation.
pub open spec fn contributes(e: SweepEvent, operation: Operation) -> bool {
    let subject = e.polygon_type == PolygonType::Subject;
    match e.edge_type {
        EdgeType::Normal => match operation {
            Operation::Intersection => !e.other_in_out,
            Operation::Union => e.other_in_out,
            Operation::Difference => (subject && e.other_in_out) || (!subject && !e.other_in_out),
            Operation::Xor => true,
        },
        EdgeType::SameTransition => operation == Operation::Intersection || operation
            == Operation::Union,
        EdgeType::DifferentTransition => operation == Operation::Difference,
        EdgeType::NonContributing => false,
    }
}

/// The direction of the result transition of a contributing event: `1`
/// when the area on its far side belongs to the result, else `-1`.
pub open spec fn transition(e: SweepEvent, operation: Operation) -> i32 {
    let this_in = !e.in_out;
    let that_in = !e.other_in_out;
    let is_in = match operation {
        Operation::Intersection => this_in && that_in,
        Operation::Union => this_in || that_in,
        Operation::Xor => this_in != that_in,
        Operation::Difference => if e.polygon_type == PolygonType::Subject {
            this_in && !that_in
        } else {
            that_in && !this_in
        },
    };
    if is_in {
        1i32
    } else {
        -1i32
    }
}

/// The in/out flags and the `prev_in_result` link of `event` after
/// classification against the predecessor `prev` (before the result
/// transition is set).
pub open spec fn flags_from_prev(arena: Seq<SweepEvent>, event: usize, prev: Option<usize>, operation: Operation) -> SweepEvent {
    let e = ev(arena, event);
    match prev {
        None => SweepEvent { in_out: false, other_in_out: true, ..e },
        Some(p) => {
            let pe = ev(arena, p);
            let prev_vertical = pe.point[0] == peer_point(arena, p)[0];
            let same = (e.polygon_type == PolygonType::Subject) == (pe.polygon_type == PolygonType::Subject);
            let in_out = if same { !pe.in_out } else { !pe.other_in_out };
            let other_in_out = if same {
                pe.other_in_out
            } else if prev_vertical {
                !pe.in_out
            } else {
                pe.in_out
            };
            let e1 = SweepEvent { in_out, other_in_out, ..e };
            // the predecessor is read back after the flags are written
            let pe1 = arena.update(event as int, e1)[p as int];
            let prev_in_result = if !contributes(pe1, operation) || prev_vertical {
                pe.prev_in_result
            } else {
                Some(p)
            };
            SweepEvent { prev_in_result, ..e1 }
        },
    }
}

/// The arena after classifying `event` against the predecessor `prev`.
pub open spec fn classified(arena: Seq<SweepEvent>, event: usize, prev: Option<usize>, operation: Operation) -> Seq<SweepEvent> {
    let e1 = flags_from_prev(arena, event, prev, operation);
    let rt = if contributes(e1, operation) {
        transition(e1, operation)
    } else {
        0i32
    };
    arena.update(event as int, SweepEvent { result_transition: rt, ..e1 })
}

/// What classification needs: the event exists, and the predecessor (if
/// any) has a peer.
pub open spec fn classifiable(arena: Seq<SweepEvent>, event: usize, prev: Option<usize>) -> bool {
    &&& event < arena.len()
    &&& (prev matches Some(p) ==> has_peer(arena, p))
}

/// Set `in_out`, `other_in_out`, `prev_in_result` and `result_transition`
/// of `arena[event_idx]` given its sweep-line predecessor `prev_idx` and
/// the operation.
pub fn compute_fields(arena: &mut Vec<SweepEvent>, event_idx: usize, prev_idx: Option<usize>, operation: Operation)
    requires
        classifiable(old(arena)@, event_idx, prev_idx),
    ensures
        final(arena)@ == classified(old(arena)@, event_idx, prev_idx, operation),
{
    let ghost start = arena@;
    match prev_idx {
        None => {
            let mut e = arena[event_idx];
            e.in_out = false;
            e.other_in_out = true;
            arena.set(event_idx, e);
        },
        Some(prev) => {
            let prev_is_subject = arena[prev].is_subject();
            let prev_in_out = arena[prev].in_out;
            let prev_other_in_out = arena[prev].other_in_out;
            let prev_other_idx = match arena[prev].other_event {
                Some(j) => j,
                None => {
                    return;
                },
            };
            let prev_other_point_x = arena[prev_other_idx].point[0];
            let prev_is_vertical = arena[prev].point[0] == prev_other_point_x;
            let prev_prev_in_result = arena[prev].prev_in_result;
            let event_is_subject = arena[event_idx].is_subject();

            let mut e = arena[event_idx];
            if event_is_subject == prev_is_subject {
                e.in_out = !prev_in_out;
                e.other_in_out = prev_other_in_out;
            } else {
                e.in_out = !prev_other_in_out;
                e.other_in_out = if prev_is_vertical {
                    !prev_in_out
                } else {
                    prev_in_out
                };
            }
            arena.set(event_idx, e);

            let prev_was_in_result = in_result(arena, prev, operation);
            let mut e = arena[event_idx];
            e.prev_in_result = if !prev_was_in_result || prev_is_vertical {
                prev_prev_in_result
            } else {
                Some(prev)
            };
            arena.set(event_idx, e);
        },
    }
    assert(arena@[event_idx as int] == flags_from_prev(start, event_idx, prev_idx, operation));
    let is_in_result = in_result(arena, event_idx, operation);
    let mut e = arena[event_idx];
    e.result_transition = if is_in_result {
        determine_result_transition(arena, event_idx, operation)
    } else {
        0
    };
    arena.set(event_idx, e);
    proof {
        assert(arena@ =~= classified(start, event_idx, prev_idx, operation));
    }
}

/// The result transition of a contributing event.
fn determine_result_transition(arena: &Vec<SweepEvent>, idx: usize, operation: Operation) -> (r: i32)
    requires
        idx < arena@.len(),
    ensures
        r == transition(arena@[idx as int], operation),
{
    let e = &arena[idx];
    let this_in = !e.in_out;
    let that_in = !e.other_in_out;
    let is_in = match operation {
        Operation::Intersection => this_in && that_in,
        Operation::Union => this_in || that_in,
        Operation::Xor => this_in != that_in,
        Operation::Difference => {
            if e.is_subject() {
                this_in && !that_in
            } else {
                that_in && !this_in
            }
        },
    };
    if is_in {
        1
    } else {
        -1
    }
}

/// Whether the event's segment contributes to the result of the
/// operation, given its edge type and in/out flags.
fn in_result(arena: &Vec<SweepEvent>, idx: usize, operation: Operation) -> (r: bool)
    requires
        idx < arena@.len(),
    ensures
        r == contributes(arena@[idx as int], operation),
{
    let e = &arena[idx];
    match e.edge_type {
        EdgeType::Normal => match operation {
            Operation::Intersection => !e.other_in_out,
            Operation::Union => e.other_in_out,
            Operation::Difference => (e.is_subject() && e.other_in_out) || (!e.is_subject()
                && !e.other_in_out),
            Operation::Xor => true,
        },
        EdgeType::SameTransition => match operation {
            Operation::Intersection | Operation::Union => true,
            _ => false,
        },
        EdgeType::DifferentTransition => match operation {
            Operation::Difference => true,
            _ => false,
        },
        EdgeType::NonContributing => false,
    }
}

/// Classification changes only the flags of one event: points, links,
/// sides and contour assignments stay, and with them well-formedness and
/// the segment weight.
pub proof fn lemma_classified_keeps(a: Seq<SweepEvent>, event: usize, prev: Option<usize>, operation: Operation)
    requires
        classifiable(a, event, prev),
        prev matches Some(p) ==> p < a.len(),
    ensures
        classified(a, event, prev, operation).len() == a.len(),
        forall|i: int|
            0 <= i < a.len() ==> {
                &&& (#[trigger] classified(a, event, prev, operation)[i]).point == a[i].point
                &&& classified(a, event, prev, operation)[i].other_event == a[i].other_event
                &&& classified(a, event, prev, operation)[i].left == a[i].left
                &&& classified(a, event, prev, operation)[i].output_contour_id == a[i].output_contour_id
            },
        wf_arena(a) ==> wf_arena(classified(a, event, prev, operation)),
        wf_arena(a) ==> arena_weight(classified(a, event, prev, operation)) == arena_weight(a),
        output_ready(a) ==> output_ready(classified(a, event, prev, operation)),
{
    let c = classified(a, event, prev, operation);
    if wf_arena(a) {
        assert forall|i: usize| i < c.len() implies #[trigger] wf_event(c, i) by {
            assert(wf_event(a, i));
            assert(wf_event(a, peer(a, i)));
        }
        lemma_wf_linked(a);
        lemma_weight_same_links(a, c, a.len() as int);
    }
    if output_ready(a) {
        assert forall|i: int| 0 <= i < c.len() implies (#[trigger] c[i]).output_contour_id < 0 && (c[i].prev_in_result matches Some(j) ==> j < c.len()) by {
            assert(a[i].output_contour_id < 0);
            if let Some(p) = prev {
                assert(a[p as int].output_contour_id < 0);
            }
        }
    }
}

/// Whether the area just above the segment of `e` lies inside the subject,
/// as its in/out flags record it.
pub open spec fn subject_above(e: SweepEvent) -> bool {
    if e.polygon_type == PolygonType::Subject {
        !e.in_out
    } else {
        !e.other_in_out
    }
}

/// Whether the area just above the segment of `e` lies inside the
/// clipping, as its in/out flags record it.
pub open spec fn clipping_above(e: SweepEvent) -> bool {
    if e.polygon_type == PolygonType::Subject {
        !e.other_in_out
    } else {
        !e.in_out
    }
}

/// Whether the area just below the segment of `e` lies inside the subject:
/// crossing the segment flips the side of its own input only.
pub open spec fn subject_below(e: SweepEvent) -> bool {
    if e.polygon_type == PolygonType::Subject {
        e.in_out
    } else {
        !e.other_in_out
    }
}

/// Whether the area just below the segment of `e` lies inside the
/// clipping.
pub open spec fn clipping_below(e: SweepEvent) -> bool {
    if e.polygon_type == PolygonType::Subject {
        !e.other_in_out
    } else {
        e.in_out
    }
}

/// Whether the result of the operation changes across the segment of `e`:
/// crossing an ordinary edge flips only the side of its own input; an edge
/// shared by both inputs flips both, to the same side when the two make
/// the same transition there and to opposite sides otherwise; the second
/// copy of a shared edge separates nothing.
pub open spec fn result_boundary(e: SweepEvent, operation: Operation) -> bool {
    let s = subject_above(e);
    let c = clipping_above(e);
    match e.edge_type {
        EdgeType::Normal => if e.polygon_type == PolygonType::Subject {
            in_result_region(operation, s, c) != in_result_region(operation, !s, c)
        } else {
            in_result_region(operation, s, c) != in_result_region(operation, s, !c)
        },
        EdgeType::SameTransition => in_result_region(operation, true, true) != in_result_region(operation, false, false),
        EdgeType::DifferentTransition => in_result_region(operation, true, false) != in_result_region(
            operation,
            false,
            true,
        ),
        EdgeType::NonContributing => false,
    }
}

/// An event contributes to the result exactly when its segment is a
/// boundary of the result.
proof fn lemma_contributes_boundary(x: SweepEvent, operation: Operation)
    ensures
        contributes(x, operation) == result_boundary(x, operation),
{
}

/// What lies just below the segment of `e` is what lies just above the
/// segment of `p` (entry `pi`) under it, and the result edge recorded
/// below `e` is `pi` when that segment is a boundary of the result, and
/// otherwise the one recorded below `p`.
pub open spec fn follows_below(e: SweepEvent, p: SweepEvent, pi: usize, operation: Operation) -> bool {
    &&& subject_below(e) == subject_above(p)
    &&& clipping_below(e) == clipping_above(p)
    &&& e.prev_in_result == (if result_boundary(p, operation) {
        Some(pi)
    } else {
        p.prev_in_result
    })
}

/// Under a vertical segment `p`: what lies just below the
/// segment of `e` with respect to its own input is what lies just above
/// `p`; with respect to the input of `p`, when that is the other input, it
/// is what lies just below `p`, the side of a vertical segment that the
/// sweep has already passed. A vertical segment is never recorded as the
/// result edge below: `e` keeps the one recorded below `p`.
pub open spec fn follows_vertical(e: SweepEvent, p: SweepEvent) -> bool {
    &&& e.polygon_type == p.polygon_type ==> subject_below(e) == subject_above(p) && clipping_below(e)
        == clipping_above(p)
    &&& e.polygon_type != p.polygon_type && p.polygon_type == PolygonType::Subject ==> subject_below(e)
        == subject_below(p) && clipping_below(e) == clipping_above(p)
    &&& e.polygon_type != p.polygon_type && p.polygon_type == PolygonType::Clipping ==> clipping_below(e)
        == clipping_below(p) && subject_below(e) == subject_above(p)
    &&& e.prev_in_result == p.prev_in_result
}

/// Classification follows the meaning of the operations. Below a segment
/// with nothing under it on the sweep line lies neither input; below a
/// segment lies what lies above the non-vertical segment just under it. A
/// classified event has a non-zero result transition exactly when its
/// segment is a boundary of the result (the result differs just above and
/// just below it); for an ordinary edge the transition is `1` when the
/// area just above it lies in the result (inside both inputs for an
/// intersection, inside either for a union, inside the subject but not the
/// clipping for a difference, inside exactly one for a xor) and `-1` when
/// it lies outside. The result edge recorded below it is the segment just
/// under it when that is a non-vertical boundary of the result, and
/// otherwise the one recorded below that segment. Under a vertical
/// segment, see [`follows_vertical`].
pub proof fn lemma_classification_follows_regions(a: Seq<SweepEvent>, event: usize, prev: Option<usize>, operation: Operation)
    requires
        classifiable(a, event, prev),
    ensures
        ({
            let e = classified(a, event, prev, operation)[event as int];
            &&& (e.result_transition != 0) == result_boundary(e, operation)
            &&& e.result_transition == 0 || e.result_transition == 1 || e.result_transition == -1
            &&& (e.edge_type == EdgeType::Normal && e.result_transition != 0) ==> (e.result_transition == 1)
                == in_result_region(operation, subject_above(e), clipping_above(e))
            &&& prev is None ==> !subject_below(e) && !clipping_below(e)
            &&& (prev is Some && prev.unwrap() != event && ev(a, prev.unwrap()).point[0] != peer_point(
                a,
                prev.unwrap(),
            )[0]) ==> follows_below(e, ev(a, prev.unwrap()), prev.unwrap(), operation)
            &&& (prev is Some && prev.unwrap() != event && ev(a, prev.unwrap()).point[0] == peer_point(
                a,
                prev.unwrap(),
            )[0]) ==> follows_vertical(e, ev(a, prev.unwrap()))
        }),
{
    let e = classified(a, event, prev, operation)[event as int];
    lemma_contributes_boundary(e, operation);
    if let Some(p) = prev {
        lemma_contributes_boundary(ev(a, p), operation);
        if p != event {
            let e1 = flags_from_prev(a, event, prev, operation);
            assert(a.update(event as int, e1)[p as int] == ev(a, p));
        }
    }
}

} // verus!
