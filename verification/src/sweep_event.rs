//! Sweep events: the endpoints of input and subdivided segments.
//!
//! Events live in an arena (`Vec<SweepEvent>`) owned by the sweep driver;
//! `other_event` holds the arena index of the other endpoint of the same
//! segment.
use crate::edge_type::EdgeType;
use crate::signed_area::{orient, orient_exact};
use crate::types::Position;
use vstd::prelude::*;

verus! {

/// Whether a sweep event originated from the subject or the clipping
/// polygon.
#[derive(Debug, Clone, Copy, PartialEq, Eq, Structural)]
pub enum PolygonType {
    Subject,
    Clipping,
}

/// One endpoint of an input or subdivided segment.
#[derive(Debug, Clone, Copy)]
pub struct SweepEvent {
    /// Endpoint of the segment this event represents.
    pub point: Position,
    /// `true` if this is the left endpoint of its segment.
    pub left: bool,
    /// Arena index of the peer event (the other endpoint of the segment).
    pub other_event: Option<usize>,
    /// Which input polygon this event came from.
    pub polygon_type: PolygonType,
    /// Edge classification.
    pub edge_type: EdgeType,
    /// Whether this event is an inside-outside transition for its own
    /// polygon.
    pub in_out: bool,
    /// Same flag for the other polygon.
    pub other_in_out: bool,
    /// Previous event on the sweep line that lies in the result.
    pub prev_in_result: Option<usize>,
    /// Result transition: `+1`, `-1`, or `0` when not in the result.
    pub result_transition: i32,
    /// Position of the peer among the result events; `-1` until set.
    pub other_pos: i32,
    /// Output contour index this event was assigned to; `-1` until set.
    pub output_contour_id: i32,
    /// Whether the event's contour is an exterior ring (vs a hole).
    pub is_exterior_ring: bool,
    /// Contour-of-origin identifier used in segment tie-breaking.
    pub contour_id: Option<i32>,
}

/// Strict lexicographic order on positions: by `x`, then by `y`.
pub open spec fn lex_lt(a: Position, b: Position) -> bool {
    a[0] < b[0] || (a[0] == b[0] && a[1] < b[1])
}

/// Lexicographic order of positions, ties included.
pub open spec fn lex_le(a: Position, b: Position) -> bool {
    a[0] < b[0] || (a[0] == b[0] && a[1] <= b[1])
}

/// Whether the segment `(point -> other_point)` of an event lies below the
/// query point `q`.
pub open spec fn below(point: Position, left: bool, other_point: Position, q: Position) -> bool {
    if left {
        orient(point, other_point, q) > 0
    } else {
        orient(other_point, point, q) > 0
    }
}

/// Entry `k` of a sequence of indices.
pub open spec fn nth(s: Seq<usize>, k: usize) -> usize {
    s[k as int]
}

/// `s` with `x` inserted at position `k`.
pub open spec fn insert_at(s: Seq<usize>, k: usize, x: usize) -> Seq<usize> {
    s.subrange(0, k as int).push(x) + s.subrange(k as int, s.len() as int)
}

/// The event at index `i` of an arena.
pub open spec fn ev(arena: Seq<SweepEvent>, i: usize) -> SweepEvent {
    arena[i as int]
}

/// Whether event `i` exists and has a peer that exists.
pub open spec fn has_peer(arena: Seq<SweepEvent>, i: usize) -> bool {
    &&& i < arena.len()
    &&& arena[i as int].other_event is Some
    &&& arena[i as int].other_event.unwrap() < arena.len()
}

/// The peer index of event `i`.
pub open spec fn peer(arena: Seq<SweepEvent>, i: usize) -> usize {
    arena[i as int].other_event.unwrap()
}

/// The point of the peer of event `i`.
pub open spec fn peer_point(arena: Seq<SweepEvent>, i: usize) -> Position {
    arena[peer(arena, i) as int].point
}

/// The well-formedness that the sweep keeps: every event has a peer, the
/// peer relation pairs events up, each pair has exactly one left event,
/// and the left event lies lexicographically before its peer.
pub open spec fn wf_arena(arena: Seq<SweepEvent>) -> bool {
    forall|i: usize| i < arena.len() ==> #[trigger] wf_event(arena, i)
}

/// Whether every event has a peer and the peer relation pairs events up.
pub open spec fn linked_arena(arena: Seq<SweepEvent>) -> bool {
    forall|i: usize| i < arena.len() ==> #[trigger] linked_event(arena, i)
}

/// Event `i` has a peer other than itself, whose peer is `i`.
pub open spec fn linked_event(arena: Seq<SweepEvent>, i: usize) -> bool {
    &&& has_peer(arena, i)
    &&& peer(arena, i) != i
    &&& arena[peer(arena, i) as int].other_event == Some(i)
}

/// A well-formed arena is linked.
pub proof fn lemma_wf_linked(arena: Seq<SweepEvent>)
    requires
        wf_arena(arena),
    ensures
        linked_arena(arena),
{
    assert forall|i: usize| i < arena.len() implies #[trigger] linked_event(arena, i) by {
        assert(wf_event(arena, i));
    }
}

/// Well-formedness of one event of an arena; see [`wf_arena`].
pub open spec fn wf_event(arena: Seq<SweepEvent>, i: usize) -> bool {
    &&& has_peer(arena, i)
    &&& peer(arena, i) != i
    &&& arena[peer(arena, i) as int].other_event == Some(i)
    &&& arena[i as int].left != arena[peer(arena, i) as int].left
    &&& arena[i as int].left ==> lex_lt(arena[i as int].point, peer_point(arena, i))
}

/// No event is assigned to an output contour yet, and every
/// `prev_in_result` link names an event of the arena.
pub open spec fn output_ready(arena: Seq<SweepEvent>) -> bool {
    forall|i: int|
        0 <= i < arena.len() ==> (#[trigger] arena[i]).output_contour_id < 0 && (arena[i].prev_in_result matches Some(
            j,
        ) ==> j < arena.len())
}

/// Every index of `s` names an event of the arena.
pub open spec fn indices_in(arena: Seq<SweepEvent>, s: Seq<usize>) -> bool {
    forall|k: int| 0 <= k < s.len() ==> #[trigger] s[k] < arena.len()
}

impl SweepEvent {
    /// Build a fresh sweep event with the initial values of all transient
    /// fields.
    pub fn new(point: Position, left: bool, polygon_type: PolygonType, edge_type: EdgeType) -> (e:
        Self)
        ensures
            e == fresh_event(point, left, polygon_type, edge_type),
    {
        SweepEvent {
            point,
            left,
            other_event: None,
            polygon_type,
            edge_type,
            in_out: false,
            other_in_out: false,
            prev_in_result: None,
            result_transition: 0,
            other_pos: -1,
            output_contour_id: -1,
            is_exterior_ring: true,
            contour_id: None,
        }
    }

    /// Whether the segment `(self.point -> other_point)` lies strictly
    /// below the query point `p`.
    pub fn is_below(&self, other_point: Position, p: Position) -> (r: bool)
        ensures
            r == below(self.point, self.left, other_point, p),
    {
        if self.left {
            orient_exact(self.point, other_point, p) > 0
        } else {
            orient_exact(other_point, self.point, p) > 0
        }
    }

    /// Negation of [`Self::is_below`].
    pub fn is_above(&self, other_point: Position, p: Position) -> (r: bool)
        ensures
            r == !below(self.point, self.left, other_point, p),
    {
        !self.is_below(other_point, p)
    }

    /// Whether the segment is vertical (same `x` for both endpoints).
    pub fn is_vertical(&self, other_point: Position) -> (r: bool)
        ensures
            r == (self.point[0] == other_point[0]),
    {
        self.point[0] == other_point[0]
    }

    /// Whether this event contributes to the output.
    pub fn in_result(&self) -> (r: bool)
        ensures
            r == (self.result_transition != 0),
    {
        self.result_transition != 0
    }

    /// Whether this event came from the subject polygon.
    pub fn is_subject(&self) -> (r: bool)
        ensures
            r == (self.polygon_type == PolygonType::Subject),
    {
        self.polygon_type == PolygonType::Subject
    }
}

/// A new event: no peer, no classification yet, exterior ring.
pub open spec fn fresh_event(point: Position, left: bool, polygon_type: PolygonType, edge_type: EdgeType) -> SweepEvent {
    SweepEvent {
        point,
        left,
        other_event: None,
        polygon_type,
        edge_type,
        in_out: false,
        other_in_out: false,
        prev_in_result: None,
        result_transition: 0i32,
        other_pos: -1i32,
        output_contour_id: -1i32,
        is_exterior_ring: true,
        contour_id: None,
    }
}

} // verus!
