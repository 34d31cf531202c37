//! Segment subdivision at an intersection point.
//!
//! Splitting the segment of an event appends two events to the arena (a
//! right endpoint at the split point for the front half and a left
//! endpoint there for the back half) and re-links the peers so both halves
//! are connected. Queueing the new events is the caller's job.
use crate::compare_events::{compare_events, event_after, lemma_distinct_points_order};
use crate::edge_type::EdgeType;
use crate::sweep_event::{ev, fresh_event, has_peer, lex_lt, linked_arena, linked_event, peer, peer_point, wf_arena, wf_event, SweepEvent};
use crate::types::Position;
use std::cmp::Ordering;
use vstd::prelude::*;

verus! {

/// Index of the second event that a split appends.
pub open spec fn second_new_index(arena: Seq<SweepEvent>) -> usize {
    (arena.len() + 1) as usize
}

/// Index of the first event that a split appends.
pub open spec fn first_new_index(arena: Seq<SweepEvent>) -> usize {
    arena.len() as usize
}

/// The right endpoint at `p` that ends the front half of the segment of
/// event `e`.
pub open spec fn split_right(arena: Seq<SweepEvent>, e: usize, p: Position) -> SweepEvent {
    SweepEvent {
        other_event: Some(e),
        contour_id: ev(arena, e).contour_id,
        ..fresh_event(p, false, ev(arena, e).polygon_type, EdgeType::Normal)
    }
}

/// The left endpoint at `p` that starts the back half, before the
/// rounding guard.
pub open spec fn split_left(arena: Seq<SweepEvent>, e: usize, p: Position) -> SweepEvent {
    SweepEvent {
        other_event: Some(peer(arena, e)),
        contour_id: ev(arena, e).contour_id,
        ..fresh_event(p, true, ev(arena, e).polygon_type, EdgeType::Normal)
    }
}

/// The arena with both new events appended, before any re-linking.
pub open spec fn split_appended(arena: Seq<SweepEvent>, e: usize, p: Position) -> Seq<SweepEvent> {
    arena.push(split_right(arena, e, p)).push(split_left(arena, e, p))
}

/// Whether the new left endpoint would come after the old peer in event
/// order, so the two swap sides.
pub open spec fn split_flips(arena: Seq<SweepEvent>, e: usize, p: Position) -> bool {
    event_after(split_appended(arena, e, p), second_new_index(arena), peer(arena, e))
}

/// The arena after splitting the segment of event `e` at `p`.
#[verifier::opaque]
pub open spec fn divided(arena: Seq<SweepEvent>, e: usize, p: Position) -> Seq<SweepEvent> {
    let o = peer(arena, e);
    let flip = split_flips(arena, e, p);
    let l = split_left(arena, e, p);
    let new_l = SweepEvent { left: if flip { false } else { l.left }, ..l };
    let new_o = SweepEvent {
        left: if flip { true } else { ev(arena, o).left },
        other_event: Some(second_new_index(arena)),
        ..ev(arena, o)
    };
    let new_e = SweepEvent { other_event: Some(first_new_index(arena)), ..ev(arena, e) };
    arena.update(o as int, new_o).update(e as int, new_e).push(split_right(arena, e, p)).push(new_l)
}

/// Every event has a peer index inside the arena.
pub open spec fn links_ok(arena: Seq<SweepEvent>) -> bool {
    forall|i: int|
        0 <= i < arena.len() ==> (#[trigger] arena[i]).other_event is Some && arena[i].other_event.unwrap()
            < arena.len()
}

/// A split appends two events.
pub proof fn lemma_divided_len(arena: Seq<SweepEvent>, e: usize, p: Position)
    requires
        has_peer(arena, e),
    ensures
        divided(arena, e, p).len() == arena.len() + 2,
{
    reveal(divided);
}

/// The shape of a split: two events appended, only the split event and its
/// old peer re-linked, and peer indices kept inside the arena.
pub proof fn lemma_divided_shape(arena: Seq<SweepEvent>, e: usize, p: Position)
    requires
        has_peer(arena, e),
        peer(arena, e) != e,
    ensures
        ({
            let d = divided(arena, e, p);
            let n = arena.len() as int;
            let o = peer(arena, e) as int;
            &&& d.len() == n + 2
            &&& forall|i: int| 0 <= i < n && i != e && i != o ==> #[trigger] d[i] == arena[i]
            &&& forall|i: int| 0 <= i < n ==> (#[trigger] d[i]).point == arena[i].point
            &&& d[n].point == p
            &&& d[n + 1].point == p
            &&& d[e as int].other_event == Some(n as usize)
            &&& d[o].other_event == Some((n + 1) as usize)
            &&& d[n].other_event == Some(e)
            &&& d[n + 1].other_event == Some(o as usize)
            &&& (links_ok(arena) ==> links_ok(d))
        }),
{
    reveal(divided);
}

/// Split the segment of event `event_idx` at point `p`. Returns the
/// indices of the new left and right events.
pub fn divide_segment(arena: &mut Vec<SweepEvent>, event_idx: usize, p: Position) -> (res: (
    usize,
    usize,
))
    requires
        has_peer(old(arena)@, event_idx),
        has_peer(old(arena)@, peer(old(arena)@, event_idx)),
        peer(old(arena)@, event_idx) != event_idx,
    ensures
        final(arena)@ == divided(old(arena)@, event_idx, p),
        res.0 == second_new_index(old(arena)@),
        res.1 == first_new_index(old(arena)@),
        old(arena)@.len() + 2 <= usize::MAX,
{
    let polygon_type = arena[event_idx].polygon_type;
    let contour_id = arena[event_idx].contour_id;
    let other_event_idx = match arena[event_idx].other_event {
        Some(j) => j,
        None => {
            return (0, 0);
        },
    };
    let ghost start = arena@;

    let r_idx = arena.len();
    let mut r = SweepEvent::new(p, false, polygon_type, EdgeType::Normal);
    r.other_event = Some(event_idx);
    r.contour_id = contour_id;
    arena.push(r);

    let l_idx = arena.len();
    let mut l = SweepEvent::new(p, true, polygon_type, EdgeType::Normal);
    l.other_event = Some(other_event_idx);
    l.contour_id = contour_id;
    arena.push(l);
    assert(arena@ == split_appended(start, event_idx, p));

    // Rounding guard: if the new left endpoint would be processed after the
    // old peer, the two swap sides.
    let flip = matches!(compare_events(arena, l_idx, other_event_idx), Ordering::Greater);
    if flip {
        let mut o = arena[other_event_idx];
        o.left = true;
        arena.set(other_event_idx, o);
        let mut nl = arena[l_idx];
        nl.left = false;
        arena.set(l_idx, nl);
    }
    let mut o = arena[other_event_idx];
    o.other_event = Some(l_idx);
    arena.set(other_event_idx, o);
    let mut e = arena[event_idx];
    e.other_event = Some(r_idx);
    arena.set(event_idx, e);
    let n_after = arena.len();
    proof {
        reveal(divided);
        assert(arena@ =~= divided(start, event_idx, p));
        assert(n_after == start.len() + 2);
    }
    (l_idx, r_idx)
}

/// Splitting any event of a linked arena keeps it linked, and keeps the
/// points, sides and polygon types of the old events.
pub proof fn lemma_divided_linked(arena: Seq<SweepEvent>, e: usize, p: Position)
    requires
        linked_arena(arena),
        e < arena.len(),
        arena.len() + 2 <= usize::MAX,
    ensures
        linked_arena(divided(arena, e, p)),
        divided(arena, e, p).len() == arena.len() + 2,
        forall|i: int| 0 <= i < arena.len() ==> {
            &&& (#[trigger] divided(arena, e, p)[i]).point == arena[i].point
            &&& divided(arena, e, p)[i].polygon_type == arena[i].polygon_type
            &&& divided(arena, e, p)[i].edge_type == arena[i].edge_type
            &&& divided(arena, e, p)[i].contour_id == arena[i].contour_id
            &&& (i != peer(arena, e) ==> divided(arena, e, p)[i].left == arena[i].left)
        },
        divided(arena, e, p)[arena.len() as int].point == p,
        divided(arena, e, p)[arena.len() as int + 1].point == p,
{
    reveal(divided);
    let o = peer(arena, e);
    let n = arena.len() as int;
    assert(linked_event(arena, e));
    let d = divided(arena, e, p);
    assert forall|i: usize| i < d.len() implies #[trigger] linked_event(d, i) by {
        if i == e || i == o || i == n || i == n + 1 {
        } else {
            assert(linked_event(arena, i));
            let j = peer(arena, i);
            assert(j != e) by {
                if j == e {
                    assert(arena[e as int].other_event == Some(i));
                }
            }
            assert(j != o) by {
                if j == o {
                    assert(linked_event(arena, o));
                    assert(arena[o as int].other_event == Some(e));
                }
            }
        }
    }
}

/// Whether `p` lies strictly inside the segment of left event `e`: after
/// its point and before its peer's, lexicographically.
pub open spec fn splits_inside(arena: Seq<SweepEvent>, e: usize, p: Position) -> bool {
    &&& ev(arena, e).left
    &&& lex_lt(ev(arena, e).point, p)
    &&& lex_lt(p, peer_point(arena, e))
}

/// Splitting a left event of a well-formed arena strictly inside its
/// segment never swaps sides, and keeps the arena well-formed.
pub proof fn lemma_divided_wf(arena: Seq<SweepEvent>, e: usize, p: Position)
    requires
        wf_arena(arena),
        e < arena.len(),
        splits_inside(arena, e, p),
        arena.len() + 2 <= usize::MAX,
    ensures
        !split_flips(arena, e, p),
        wf_arena(divided(arena, e, p)),
        divided(arena, e, p).len() == arena.len() + 2,
{
    reveal(divided);
    let o = peer(arena, e);
    let n = arena.len() as int;
    assert(wf_event(arena, e));
    let pushed = split_appended(arena, e, p);
    assert(pushed[n + 1] == split_left(arena, e, p));
    assert(pushed[o as int] == arena[o as int]);
    lemma_distinct_points_order(pushed, second_new_index(arena), o);
    assert(!split_flips(arena, e, p));
    let d = divided(arena, e, p);
    assert forall|i: usize| i < d.len() implies #[trigger] wf_event(d, i) by {
        if i == e || i == o || i == n || i == n + 1 {
        } else {
            assert(wf_event(arena, i));
            let j = peer(arena, i);
            assert(j != e) by {
                if j == e {
                    assert(arena[e as int].other_event == Some(i));
                }
            }
            assert(j != o) by {
                if j == o {
                    assert(wf_event(arena, o));
                    assert(arena[o as int].other_event == Some(e));
                }
            }
        }
    }
}

} // verus!
