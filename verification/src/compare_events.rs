//! Sweep event ordering for the priority queue.
//!
//! The order never answers `Equal`: two events are the same only when they
//! are the same arena entry.
use crate::signed_area::{orient, signed_area, lemma_orient_swap, lemma_orient_rotate};
use crate::sweep_event::{below, ev, has_peer, lex_lt, peer_point, PolygonType, SweepEvent};
use crate::types::Position;
use std::cmp::Ordering;
use vstd::prelude::*;

verus! {

/// The priority order of two events, given the points of their peers:
///
/// 1. smaller `x` first;
/// 2. smaller `y` first when `x` ties;
/// 3. right endpoint before left when both points tie;
/// 4. the segment that lies below the other first, when the points tie,
///    the sides agree and the segments are not collinear;
/// 5. otherwise subject before clipping.
pub open spec fn event_order(e1: SweepEvent, e2: SweepEvent, o1: Position, o2: Position) -> Ordering {
    if e1.point[0] > e2.point[0] {
        Ordering::Greater
    } else if e1.point[0] < e2.point[0] {
        Ordering::Less
    } else if e1.point[1] != e2.point[1] {
        if e1.point[1] > e2.point[1] {
            Ordering::Greater
        } else {
            Ordering::Less
        }
    } else if e1.left != e2.left {
        if e1.left {
            Ordering::Greater
        } else {
            Ordering::Less
        }
    } else if orient(e1.point, o1, o2) != 0 {
        if below(e1.point, e1.left, o1, o2) {
            Ordering::Less
        } else {
            Ordering::Greater
        }
    } else if e1.polygon_type == PolygonType::Clipping && e2.polygon_type == PolygonType::Subject {
        Ordering::Greater
    } else {
        Ordering::Less
    }
}

/// Whether entries `i1` and `i2` sit at the same point and on the same
/// side, so that only their peers can order them.
pub open spec fn ties(arena: Seq<SweepEvent>, i1: usize, i2: usize) -> bool {
    ev(arena, i1).point == ev(arena, i2).point && ev(arena, i1).left == ev(arena, i2).left
}

/// [`event_order`] of two arena entries. When the two tie and one of them
/// has no peer yet, the first comes first.
pub open spec fn events_order(arena: Seq<SweepEvent>, i1: usize, i2: usize) -> Ordering {
    if ties(arena, i1, i2) && (ev(arena, i1).other_event is None || ev(arena, i2).other_event is None) {
        Ordering::Less
    } else {
        event_order(ev(arena, i1), ev(arena, i2), peer_point(arena, i1), peer_point(arena, i2))
    }
}

/// The peer link of entry `i` is unset or points into the arena.
pub open spec fn link_ok(arena: Seq<SweepEvent>, i: usize) -> bool {
    ev(arena, i).other_event matches Some(j) ==> j < arena.len()
}

/// Whether entry `i1` comes before entry `i2` in event order.
pub open spec fn event_before(arena: Seq<SweepEvent>, i1: usize, i2: usize) -> bool {
    events_order(arena, i1, i2) == Ordering::Less
}

/// Whether entry `i1` comes after entry `i2` in event order.
pub open spec fn event_after(arena: Seq<SweepEvent>, i1: usize, i2: usize) -> bool {
    events_order(arena, i1, i2) == Ordering::Greater
}

/// Whether two arena entries can be ordered: both exist, and when they tie
/// on point and side, their peer links are unset or point into the arena.
pub open spec fn comparable(arena: Seq<SweepEvent>, i1: usize, i2: usize) -> bool {
    &&& i1 < arena.len()
    &&& i2 < arena.len()
    &&& ties(arena, i1, i2) ==> (link_ok(arena, i1) && link_ok(arena, i2))
}

/// Compare two sweep events `i1` and `i2` by their position in the
/// priority queue.
pub fn compare_events(arena: &Vec<SweepEvent>, i1: usize, i2: usize) -> (r: Ordering)
    requires
        comparable(arena@, i1, i2),
    ensures
        r == events_order(arena@, i1, i2),
        r != Ordering::Equal,
{
    let e1 = &arena[i1];
    let e2 = &arena[i2];
    let p1 = e1.point;
    let p2 = e2.point;

    if p1[0] > p2[0] {
        return Ordering::Greater;
    }
    if p1[0] < p2[0] {
        return Ordering::Less;
    }
    if p1[1] != p2[1] {
        return if p1[1] > p2[1] {
            Ordering::Greater
        } else {
            Ordering::Less
        };
    }
    proof {
        crate::equals::lemma_position_eq(p1, p2);
    }
    special_cases(arena, i1, i2)
}

/// Whether event `i1` comes after event `i2`.
pub fn comes_after(arena: &Vec<SweepEvent>, i1: usize, i2: usize) -> (r: bool)
    requires
        comparable(arena@, i1, i2),
    ensures
        r == event_after(arena@, i1, i2),
{
    matches!(compare_events(arena, i1, i2), Ordering::Greater)
}

/// Whether event `i1` comes before event `i2`.
pub fn comes_before(arena: &Vec<SweepEvent>, i1: usize, i2: usize) -> (r: bool)
    requires
        comparable(arena@, i1, i2),
    ensures
        r == event_before(arena@, i1, i2),
{
    matches!(compare_events(arena, i1, i2), Ordering::Less)
}

/// Same-point tie-breaking of [`compare_events`].
fn special_cases(arena: &Vec<SweepEvent>, i1: usize, i2: usize) -> (r: Ordering)
    requires
        comparable(arena@, i1, i2),
        ev(arena@, i1).point == ev(arena@, i2).point,
    ensures
        r == events_order(arena@, i1, i2),
{
    let e1 = &arena[i1];
    let e2 = &arena[i2];
    if e1.left != e2.left {
        return if e1.left {
            Ordering::Greater
        } else {
            Ordering::Less
        };
    }
    let j1 = match e1.other_event {
        Some(j) => j,
        None => {
            return Ordering::Less;
        },
    };
    let j2 = match e2.other_event {
        Some(j) => j,
        None => {
            return Ordering::Less;
        },
    };
    let o1 = arena[j1].point;
    let o2 = arena[j2].point;
    if signed_area(e1.point, o1, o2) != 0 {
        return if !e1.is_below(o1, o2) {
            Ordering::Greater
        } else {
            Ordering::Less
        };
    }
    if !e1.is_subject() && e2.is_subject() {
        Ordering::Greater
    } else {
        Ordering::Less
    }
}

/// Events at different points are ordered lexicographically by point.
pub proof fn lemma_order_distinct_points(e1: SweepEvent, e2: SweepEvent, o1: Position, o2: Position)
    requires
        e1.point != e2.point,
    ensures
        event_order(e1, e2, o1, o2) == Ordering::Less <==> lex_lt(e1.point, e2.point),
        event_order(e1, e2, o1, o2) == Ordering::Greater <==> lex_lt(e2.point, e1.point),
{
    crate::equals::lemma_position_eq(e1.point, e2.point);
}

/// Arena entries at different points are ordered lexicographically by
/// point.
pub proof fn lemma_distinct_points_order(arena: Seq<SweepEvent>, i1: usize, i2: usize)
    requires
        ev(arena, i1).point != ev(arena, i2).point,
    ensures
        event_before(arena, i1, i2) <==> lex_lt(ev(arena, i1).point, ev(arena, i2).point),
        event_after(arena, i1, i2) <==> lex_lt(ev(arena, i2).point, ev(arena, i1).point),
        event_before(arena, i1, i2) != event_after(arena, i1, i2),
{
    lemma_order_distinct_points(ev(arena, i1), ev(arena, i2), peer_point(arena, i1), peer_point(arena, i2));
}

/// The event order never answers `Equal`.
pub proof fn lemma_order_never_equal(e1: SweepEvent, e2: SweepEvent, o1: Position, o2: Position)
    ensures
        event_order(e1, e2, o1, o2) != Ordering::Equal,
{
}

/// Whenever the event order puts `e1` after `e2`, it puts `e2` before `e1`.
pub proof fn lemma_order_greater_antisymmetric(e1: SweepEvent, e2: SweepEvent, o1: Position, o2: Position)
    requires
        event_order(e1, e2, o1, o2) == Ordering::Greater,
    ensures
        event_order(e2, e1, o2, o1) == Ordering::Less,
{
    lemma_orient_swap(o1, o2, e1.point);
    lemma_orient_rotate(e1.point, o1, o2);
    lemma_orient_rotate(e1.point, o2, o1);
    lemma_orient_swap(e1.point, o1, o2);
    lemma_orient_swap(e1.point, o2, o1);
    if e1.point[0] == e2.point[0] && e1.point[1] == e2.point[1] {
        crate::equals::lemma_position_eq(e1.point, e2.point);
    }
}

} // verus!
