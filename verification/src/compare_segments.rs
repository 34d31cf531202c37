//! Sweep-line segment ordering: the vertical order of the segments that
//! the sweep line currently crosses.
use crate::compare_events::{compare_events, events_order};
use crate::equals::equals;
use crate::signed_area::{orient, signed_area};
use crate::sweep_event::{below, ev, has_peer, peer_point, PolygonType};
use crate::sweep_event::SweepEvent;
use std::cmp::Ordering;
use vstd::prelude::*;

verus! {

/// The contour id used for tie-breaking: `0` when unset.
pub open spec fn tie_contour(e: SweepEvent) -> i32 {
    match e.contour_id {
        Some(c) => c,
        None => 0i32,
    }
}

/// Whether the segments of two events lie on one line.
pub open spec fn segments_collinear(arena: Seq<SweepEvent>, i1: usize, i2: usize) -> bool {
    orient(ev(arena, i1).point, peer_point(arena, i1), ev(arena, i2).point) == 0
        && orient(ev(arena, i1).point, peer_point(arena, i1), peer_point(arena, i2)) == 0
}

/// The sweep-line order of the segments of events `i1` and `i2`:
///
/// - the same entry is `Equal`;
/// - segments that are not collinear: by where one lies relative to the
///   other's left point (shared left point: by the right points; same `x`:
///   by `y`);
/// - collinear segments of different polygons: subject below clipping;
/// - collinear segments of one polygon with the same left point: `Equal`
///   when the right points match too, else by contour id;
/// - otherwise by the event order.
pub open spec fn segments_order(arena: Seq<SweepEvent>, i1: usize, i2: usize) -> Ordering {
    let e1 = ev(arena, i1);
    let e2 = ev(arena, i2);
    let o1 = peer_point(arena, i1);
    let o2 = peer_point(arena, i2);
    if i1 == i2 {
        Ordering::Equal
    } else if !segments_collinear(arena, i1, i2) {
        if e1.point == e2.point {
            if below(e1.point, e1.left, o1, o2) {
                Ordering::Less
            } else {
                Ordering::Greater
            }
        } else if e1.point[0] == e2.point[0] {
            if e1.point[1] < e2.point[1] {
                Ordering::Less
            } else {
                Ordering::Greater
            }
        } else if events_order(arena, i1, i2) == Ordering::Greater {
            if !below(e2.point, e2.left, o2, e1.point) {
                Ordering::Less
            } else {
                Ordering::Greater
            }
        } else if below(e1.point, e1.left, o1, e2.point) {
            Ordering::Less
        } else {
            Ordering::Greater
        }
    } else if (e1.polygon_type == PolygonType::Subject) == (e2.polygon_type == PolygonType::Subject) {
        if e1.point == e2.point {
            if o1 == o2 {
                Ordering::Equal
            } else if tie_contour(e1) > tie_contour(e2) {
                Ordering::Greater
            } else {
                Ordering::Less
            }
        } else if events_order(arena, i1, i2) == Ordering::Greater {
            Ordering::Greater
        } else {
            Ordering::Less
        }
    } else if e1.polygon_type == PolygonType::Subject {
        Ordering::Less
    } else {
        Ordering::Greater
    }
}

/// Whether segment `i1` lies strictly below segment `i2` in the sweep-line
/// order.
pub open spec fn segment_below(arena: Seq<SweepEvent>, i1: usize, i2: usize) -> bool {
    segments_order(arena, i1, i2) == Ordering::Less
}

/// Whether two entries can be placed on the sweep line relative to each
/// other: the same entry, or both with a peer.
pub open spec fn segments_comparable(arena: Seq<SweepEvent>, i1: usize, i2: usize) -> bool {
    i1 == i2 || (has_peer(arena, i1) && has_peer(arena, i2))
}

/// Compare segments `i1` and `i2` along the sweep line.
pub fn compare_segments(arena: &Vec<SweepEvent>, i1: usize, i2: usize) -> (r: Ordering)
    requires
        segments_comparable(arena@, i1, i2),
    ensures
        r == segments_order(arena@, i1, i2),
{
    if i1 == i2 {
        return Ordering::Equal;
    }
    let e1 = &arena[i1];
    let e2 = &arena[i2];
    let o1 = match e1.other_event {
        Some(j) => arena[j].point,
        None => {
            return Ordering::Equal;
        },
    };
    let o2 = match e2.other_event {
        Some(j) => arena[j].point,
        None => {
            return Ordering::Equal;
        },
    };

    let not_collinear = signed_area(e1.point, o1, e2.point) != 0 || signed_area(e1.point, o1, o2)
        != 0;

    if not_collinear {
        if equals(e1.point, e2.point) {
            return if e1.is_below(o1, o2) {
                Ordering::Less
            } else {
                Ordering::Greater
            };
        }
        if e1.point[0] == e2.point[0] {
            return if e1.point[1] < e2.point[1] {
                Ordering::Less
            } else {
                Ordering::Greater
            };
        }
        if matches!(compare_events(arena, i1, i2), Ordering::Greater) {
            return if e2.is_above(o2, e1.point) {
                Ordering::Less
            } else {
                Ordering::Greater
            };
        }
        return if e1.is_below(o1, e2.point) {
            Ordering::Less
        } else {
            Ordering::Greater
        };
    }
    if e1.is_subject() == e2.is_subject() {
        if equals(e1.point, e2.point) {
            if equals(o1, o2) {
                return Ordering::Equal;
            }
            let c1 = match e1.contour_id {
                Some(c) => c,
                None => 0,
            };
            let c2 = match e2.contour_id {
                Some(c) => c,
                None => 0,
            };
            return if c1 > c2 {
                Ordering::Greater
            } else {
                Ordering::Less
            };
        }
    } else {
        return if e1.is_subject() {
            Ordering::Less
        } else {
            Ordering::Greater
        };
    }
    if matches!(compare_events(arena, i1, i2), Ordering::Greater) {
        Ordering::Greater
    } else {
        Ordering::Less
    }
}

/// Two different entries compare `Equal` exactly when they come from the
/// same polygon and span the same segment endpoint for endpoint.
pub proof fn lemma_segments_equal(arena: Seq<SweepEvent>, i1: usize, i2: usize)
    requires
        i1 != i2,
    ensures
        segments_order(arena, i1, i2) == Ordering::Equal <==> {
            &&& (ev(arena, i1).polygon_type == PolygonType::Subject) == (ev(arena, i2).polygon_type
                == PolygonType::Subject)
            &&& ev(arena, i1).point == ev(arena, i2).point
            &&& peer_point(arena, i1) == peer_point(arena, i2)
        },
{
    let p = ev(arena, i1).point;
    let o = peer_point(arena, i1);
    assert(orient(p, o, p) == 0) by (nonlinear_arith);
    assert(orient(p, o, o) == 0) by (nonlinear_arith);
}

} // verus!
