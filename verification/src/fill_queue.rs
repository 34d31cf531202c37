//! Initial event-queue population.
//!
//! Walks every ring of every polygon of both inputs. Each edge between two
//! different consecutive vertices becomes a linked pair of events (the
//! lexicographically smaller endpoint is the left one), both queued; the
//! first vertex of each such edge widens the input's bounding box. Edges
//! whose endpoints coincide are skipped.
use crate::compare_events::{comes_after, lemma_distinct_points_order};
use crate::edge_type::EdgeType;
use crate::event_queue::{heap_ordered, lemma_heap_frame, lemma_links_comparable, pairwise_comparable, EventQueue};
use crate::compare_events::link_ok;
use crate::operation::Operation;
use crate::sweep_event::{fresh_event, indices_in, lex_lt, output_ready, PolygonType, SweepEvent, wf_arena, wf_event};
use crate::types::{BBox, MultiPolygon, Polygon, Position, Ring};
use vstd::prelude::*;

verus! {

/// The two events of the edge `(s1, s2)` appended at arena index `base`.
pub open spec fn edge_pair(s1: Position, s2: Position, ptype: PolygonType, cid: i32, ext: bool, base: int) -> Seq<SweepEvent> {
    let first_left = lex_lt(s1, s2);
    seq![
        SweepEvent {
            other_event: Some((base + 1) as usize),
            contour_id: Some(cid),
            is_exterior_ring: ext,
            ..fresh_event(s1, first_left, ptype, EdgeType::Normal)
        },
        SweepEvent {
            other_event: Some(base as usize),
            contour_id: Some(cid),
            is_exterior_ring: ext,
            ..fresh_event(s2, !first_left, ptype, EdgeType::Normal)
        },
    ]
}

/// The number of edges of a ring: consecutive vertex pairs.
pub open spec fn ring_windows(ring: Seq<Position>) -> int {
    if ring.len() < 2 {
        0
    } else {
        ring.len() - 1
    }
}

/// The events of the first `k` edges of a ring, appended at `base`.
pub open spec fn ring_events(ring: Seq<Position>, k: int, ptype: PolygonType, cid: i32, ext: bool, base: int) -> Seq<SweepEvent>
    decreases k,
{
    if k <= 0 {
        Seq::empty()
    } else {
        let prev = ring_events(ring, k - 1, ptype, cid, ext, base);
        if ring[k - 1] == ring[k] {
            prev
        } else {
            prev + edge_pair(ring[k - 1], ring[k], ptype, cid, ext, base + prev.len())
        }
    }
}

/// A bounding box as a tuple `(min_x, min_y, max_x, max_y)`.
pub open spec fn bbox_tuple(b: BBox) -> (i64, i64, i64, i64) {
    (b[0], b[1], b[2], b[3])
}

/// A bounding box widened to hold `p`.
pub open spec fn bbox_add(b: (i64, i64, i64, i64), p: Position) -> (i64, i64, i64, i64) {
    (
        if p[0] < b.0 { p[0] as i64 } else { b.0 },
        if p[1] < b.1 { p[1] as i64 } else { b.1 },
        if p[0] > b.2 { p[0] as i64 } else { b.2 },
        if p[1] > b.3 { p[1] as i64 } else { b.3 },
    )
}

/// The bounding box after the first `k` edges of a ring.
pub open spec fn ring_bbox(ring: Seq<Position>, k: int, b: (i64, i64, i64, i64)) -> (i64, i64, i64, i64)
    decreases k,
{
    if k <= 0 {
        b
    } else {
        let prev = ring_bbox(ring, k - 1, b);
        if ring[k - 1] == ring[k] {
            prev
        } else {
            bbox_add(prev, ring[k - 1])
        }
    }
}

/// The rings of a polygon as sequences of positions.
pub open spec fn poly_view(poly: Polygon) -> Seq<Seq<Position>> {
    poly@.map_values(|r: Ring| r@)
}

/// The polygons of a multipolygon as sequences of rings.
pub open spec fn mp_view(mp: MultiPolygon) -> Seq<Seq<Seq<Position>>> {
    mp@.map_values(|p: Polygon| poly_view(p))
}

/// What walking a prefix of the input produces: the events, the last
/// contour id used, and the bounding box.
pub struct FillState {
    pub events: Seq<SweepEvent>,
    pub cid: int,
    pub bbox: (i64, i64, i64, i64),
}

/// Walking the first `r` rings of a polygon. Ring `0` is the exterior
/// ring when `ext_allowed`; each exterior ring opens a new contour id.
pub open spec fn poly_fill(poly: Seq<Seq<Position>>, r: int, ptype: PolygonType, ext_allowed: bool, s: FillState, base: int) -> FillState
    decreases r,
{
    if r <= 0 {
        s
    } else {
        let prev = poly_fill(poly, r - 1, ptype, ext_allowed, s, base);
        let ext = r - 1 == 0 && ext_allowed;
        let cid = if ext { prev.cid + 1 } else { prev.cid };
        let ring = poly[r - 1];
        FillState {
            events: prev.events + ring_events(ring, ring_windows(ring), ptype, cid as i32, ext, base + prev.events.len()),
            cid,
            bbox: ring_bbox(ring, ring_windows(ring), prev.bbox),
        }
    }
}

/// Walking the first `p` polygons of a multipolygon.
pub open spec fn mp_fill(mp: Seq<Seq<Seq<Position>>>, p: int, ptype: PolygonType, ext_allowed: bool, s: FillState, base: int) -> FillState
    decreases p,
{
    if p <= 0 {
        s
    } else {
        let prev = mp_fill(mp, p - 1, ptype, ext_allowed, s, base);
        poly_fill(mp[p - 1], mp[p - 1].len() as int, ptype, ext_allowed, prev, base)
    }
}

/// The walk of the polygons of one input, with the contour id shared
/// across inputs.
fn fill_polygons(
    arena: &mut Vec<SweepEvent>,
    queue: &mut EventQueue,
    mp: &MultiPolygon,
    polygon_type: PolygonType,
    ext_allowed: bool,
    contour_id: &mut i32,
    bbox: &mut BBox,
)
    requires
        indices_in(old(arena)@, old(queue)@),
        pairwise_comparable(old(arena)@, old(queue)@),
        *old(contour_id) + mp@.len() <= i32::MAX,
        *old(contour_id) >= 0,
    ensures
        ({
            let s = mp_fill(mp_view(*mp), mp@.len() as int, polygon_type, ext_allowed, FillState { events: Seq::empty(), cid: *old(contour_id) as int, bbox: bbox_tuple(*old(bbox)) }, old(arena)@.len() as int);
            &&& final(arena)@ == old(arena)@ + s.events
            &&& *final(contour_id) == s.cid
            &&& bbox_tuple(*final(bbox)) == s.bbox
        }),
        *old(contour_id) <= *final(contour_id) <= *old(contour_id) + mp@.len(),
        final(queue)@.to_multiset() == old(queue)@.to_multiset().add(index_range(old(arena)@.len() as int, final(arena)@.len() as int).to_multiset()),
        wf_arena(old(arena)@) ==> wf_arena(final(arena)@),
        indices_in(final(arena)@, final(queue)@),
        pairwise_comparable(final(arena)@, final(queue)@),
        heap_ordered(old(arena)@, old(queue)@) ==> heap_ordered(final(arena)@, final(queue)@),
        output_ready(old(arena)@) ==> output_ready(final(arena)@),
{
    let ghost a0 = arena@;
    let ghost q0 = queue@;
    let ghost c0 = *contour_id;
    let ghost s0 = FillState { events: Seq::empty(), cid: *contour_id as int, bbox: bbox_tuple(*bbox) };
    let ghost mv = mp_view(*mp);
    proof {
        lemma_add_empty_range(q0.to_multiset(), a0.len() as int);
        assert(arena@ =~= a0 + Seq::<SweepEvent>::empty());
    }
    let mut p: usize = 0;
    while p < mp.len()
        invariant
            p <= mp@.len(),
            mv == mp_view(*mp),
            arena@ == a0 + mp_fill(mv, p as int, polygon_type, ext_allowed, s0, a0.len() as int).events,
            *contour_id == mp_fill(mv, p as int, polygon_type, ext_allowed, s0, a0.len() as int).cid,
            bbox_tuple(*bbox) == mp_fill(mv, p as int, polygon_type, ext_allowed, s0, a0.len() as int).bbox,
            c0 <= *contour_id <= c0 + p,
            c0 >= 0,
            c0 + mp@.len() <= i32::MAX,
            queue@.to_multiset() == q0.to_multiset().add(index_range(a0.len() as int, arena@.len() as int).to_multiset()),
            wf_arena(a0) ==> wf_arena(arena@),
            indices_in(arena@, queue@),
            pairwise_comparable(arena@, queue@),
            heap_ordered(a0, q0) ==> heap_ordered(arena@, queue@),
            output_ready(a0) ==> output_ready(arena@),
        decreases mp@.len() - p,
    {
        let polygon = &mp[p];
        let ghost pv = mv[p as int];
        let ghost before = mp_fill(mv, p as int, polygon_type, ext_allowed, s0, a0.len() as int);
        let ghost cstart = *contour_id;
        proof {
            assert(pv == poly_view(*polygon));
            assert(pv.len() == polygon@.len());
        }
        let mut r: usize = 0;
        while r < polygon.len()
            invariant
                r <= polygon@.len(),
                pv == poly_view(*polygon),
                pv.len() == polygon@.len(),
                arena@ == a0 + poly_fill(pv, r as int, polygon_type, ext_allowed, before, a0.len() as int).events,
                *contour_id == poly_fill(pv, r as int, polygon_type, ext_allowed, before, a0.len() as int).cid,
                bbox_tuple(*bbox) == poly_fill(pv, r as int, polygon_type, ext_allowed, before, a0.len() as int).bbox,
                cstart <= *contour_id <= cstart + 1,
                (r == 0 ==> *contour_id == cstart),
                cstart == before.cid,
                c0 <= cstart <= c0 + p,
                p < mp@.len(),
                c0 + mp@.len() <= i32::MAX,
                queue@.to_multiset() == q0.to_multiset().add(index_range(a0.len() as int, arena@.len() as int).to_multiset()),
                wf_arena(a0) ==> wf_arena(arena@),
                indices_in(arena@, queue@),
                pairwise_comparable(arena@, queue@),
                heap_ordered(a0, q0) ==> heap_ordered(arena@, queue@),
                output_ready(a0) ==> output_ready(arena@),
            decreases polygon@.len() - r,
        {
            let is_exterior_ring = r == 0 && ext_allowed;
            if is_exterior_ring {
                *contour_id = *contour_id + 1;
            }
            let ghost qb = queue@;
            let ghost ab = arena@;
            proof {
                assert(polygon@[r as int]@ == pv[r as int]);
            }
            process_polygon(arena, queue, &polygon[r], polygon_type, *contour_id, bbox, is_exterior_ring);
            proof {
                broadcast use vstd::multiset::group_multiset_axioms;
                broadcast use vstd::seq_lib::group_to_multiset_ensures;
                let r1 = index_range(a0.len() as int, ab.len() as int);
                let r2 = index_range(ab.len() as int, arena@.len() as int);
                assert(index_range(a0.len() as int, arena@.len() as int) =~= r1 + r2);
                vstd::seq_lib::lemma_multiset_commutative(r1, r2);
                assert(queue@.to_multiset() =~= q0.to_multiset().add(r1.to_multiset()).add(r2.to_multiset()));
                assert(arena@ =~= a0 + poly_fill(pv, r as int + 1, polygon_type, ext_allowed, before, a0.len() as int).events);
            }
            r = r + 1;
        }
        proof {
            assert(polygon@.len() == mv[p as int].len());
        }
        p = p + 1;
    }
}

/// The events, bounding boxes and contour ids of walking the subject and
/// then the clipping polygons: every exterior ring opens a new contour id,
/// and under difference no clipping ring counts as exterior.
pub open spec fn fill_result(subject: MultiPolygon, clipping: MultiPolygon, operation: Operation, sbbox: BBox, cbbox: BBox, base: int) -> (FillState, FillState) {
    let s = mp_fill(mp_view(subject), subject@.len() as int, PolygonType::Subject, true, FillState { events: Seq::empty(), cid: 0, bbox: bbox_tuple(sbbox) }, base);
    let c = mp_fill(mp_view(clipping), clipping@.len() as int, PolygonType::Clipping, operation != Operation::Difference, FillState { events: Seq::empty(), cid: s.cid, bbox: bbox_tuple(cbbox) }, base + s.events.len());
    (s, c)
}

/// Build the initial event queue from the two inputs: append the events
/// of every edge to `arena`, queue them, and widen the two bounding boxes.
pub fn fill_queue(
    arena: &mut Vec<SweepEvent>,
    queue: &mut EventQueue,
    subject: &MultiPolygon,
    clipping: &MultiPolygon,
    sbbox: &mut BBox,
    cbbox: &mut BBox,
    operation: Operation,
)
    requires
        indices_in(old(arena)@, old(queue)@),
        pairwise_comparable(old(arena)@, old(queue)@),
        subject@.len() + clipping@.len() <= i32::MAX,
    ensures
        ({
            let (s, c) = fill_result(*subject, *clipping, operation, *old(sbbox), *old(cbbox), old(arena)@.len() as int);
            &&& final(arena)@ == old(arena)@ + s.events + c.events
            &&& bbox_tuple(*final(sbbox)) == s.bbox
            &&& bbox_tuple(*final(cbbox)) == c.bbox
        }),
        final(queue)@.to_multiset() == old(queue)@.to_multiset().add(index_range(old(arena)@.len() as int, final(arena)@.len() as int).to_multiset()),
        wf_arena(old(arena)@) ==> wf_arena(final(arena)@),
        indices_in(final(arena)@, final(queue)@),
        pairwise_comparable(final(arena)@, final(queue)@),
        heap_ordered(old(arena)@, old(queue)@) ==> heap_ordered(final(arena)@, final(queue)@),
        output_ready(old(arena)@) ==> output_ready(final(arena)@),
{
    let ghost a0 = arena@;
    let ghost q0 = queue@;
    let mut contour_id: i32 = 0;
    fill_polygons(arena, queue, subject, PolygonType::Subject, true, &mut contour_id, sbbox);
    let ghost a1 = arena@;
    let ext_allowed = match operation {
        Operation::Difference => false,
        _ => true,
    };
    fill_polygons(arena, queue, clipping, PolygonType::Clipping, ext_allowed, &mut contour_id, cbbox);
    proof {
        broadcast use vstd::multiset::group_multiset_axioms;
        let r1 = index_range(a0.len() as int, a1.len() as int);
        let r2 = index_range(a1.len() as int, arena@.len() as int);
        assert(index_range(a0.len() as int, arena@.len() as int) =~= r1 + r2);
        vstd::seq_lib::lemma_multiset_commutative(r1, r2);
        assert(queue@.to_multiset() =~= q0.to_multiset().add(r1.to_multiset()).add(r2.to_multiset()));
        assert(arena@ =~= a0 + (a1.subrange(a0.len() as int, a1.len() as int)) + arena@.subrange(a1.len() as int, arena@.len() as int));
    }
}

/// The indices `lo, lo + 1, ..., hi - 1`.
pub open spec fn index_range(lo: int, hi: int) -> Seq<usize> {
    Seq::new((hi - lo) as nat, |i: int| (lo + i) as usize)
}

/// Adding an empty range of indices changes no multiset.
pub proof fn lemma_add_empty_range(m: vstd::multiset::Multiset<usize>, lo: int)
    ensures
        m.add(index_range(lo, lo).to_multiset()) == m,
{
    broadcast use vstd::multiset::group_multiset_axioms;
    broadcast use vstd::seq_lib::group_to_multiset_ensures;

    assert(index_range(lo, lo).to_multiset().len() == 0);
    assert(m.add(index_range(lo, lo).to_multiset()) =~= m);
}

/// Appending the two events of a non-degenerate edge keeps an arena
/// well-formed.
pub proof fn lemma_append_pair_wf(arena: Seq<SweepEvent>, s1: Position, s2: Position, ptype: PolygonType, cid: i32, ext: bool)
    requires
        wf_arena(arena),
        s1 != s2,
        arena.len() + 1 <= usize::MAX,
    ensures
        wf_arena(arena + edge_pair(s1, s2, ptype, cid, ext, arena.len() as int)),
{
    let a = arena + edge_pair(s1, s2, ptype, cid, ext, arena.len() as int);
    crate::equals::lemma_position_eq(s1, s2);
    assert forall|i: usize| i < a.len() implies #[trigger] wf_event(a, i) by {
        if i < arena.len() {
            assert(wf_event(arena, i));
        }
    }
}

/// Walk one ring: add the events of its edges to the arena and the queue,
/// and widen the bounding box.
fn process_polygon(
    arena: &mut Vec<SweepEvent>,
    queue: &mut EventQueue,
    ring: &Ring,
    polygon_type: PolygonType,
    contour_id: i32,
    bbox: &mut BBox,
    is_exterior_ring: bool,
)
    requires
        indices_in(old(arena)@, old(queue)@),
        pairwise_comparable(old(arena)@, old(queue)@),
    ensures
        final(arena)@ == old(arena)@ + ring_events(ring@, ring_windows(ring@), polygon_type, contour_id, is_exterior_ring, old(arena)@.len() as int),
        bbox_tuple(*final(bbox)) == ring_bbox(ring@, ring_windows(ring@), bbox_tuple(*old(bbox))),
        final(queue)@.to_multiset() == old(queue)@.to_multiset().add(index_range(old(arena)@.len() as int, final(arena)@.len() as int).to_multiset()),
        wf_arena(old(arena)@) ==> wf_arena(final(arena)@),
        indices_in(final(arena)@, final(queue)@),
        pairwise_comparable(final(arena)@, final(queue)@),
        heap_ordered(old(arena)@, old(queue)@) ==> heap_ordered(final(arena)@, final(queue)@),
        output_ready(old(arena)@) ==> output_ready(final(arena)@),
{
    if ring.len() < 2 {
        proof {
            assert(arena@ =~= old(arena)@ + Seq::<SweepEvent>::empty());
            lemma_add_empty_range(old(queue)@.to_multiset(), old(arena)@.len() as int);
        }
        return;
    }
    let n = ring.len();
    let ghost a0 = arena@;
    let ghost q0 = queue@;
    let ghost b0 = bbox_tuple(*bbox);
    proof {
        lemma_add_empty_range(q0.to_multiset(), a0.len() as int);
        assert(arena@ =~= a0 + Seq::<SweepEvent>::empty());
    }
    let mut k: usize = 0;
    while k + 1 < n
        invariant
            n == ring@.len(),
            n >= 2,
            k + 1 <= n,
            arena@ == a0 + ring_events(ring@, k as int, polygon_type, contour_id, is_exterior_ring, a0.len() as int),
            bbox_tuple(*bbox) == ring_bbox(ring@, k as int, b0),
            queue@.to_multiset() == q0.to_multiset().add(index_range(a0.len() as int, arena@.len() as int).to_multiset()),
            wf_arena(a0) ==> wf_arena(arena@),
            indices_in(arena@, queue@),
            pairwise_comparable(arena@, queue@),
            heap_ordered(a0, q0) ==> heap_ordered(arena@, queue@),
            output_ready(a0) ==> output_ready(arena@),
        decreases n - k,
    {
        let s1 = ring[k];
        let s2 = ring[k + 1];
        proof {
            crate::equals::lemma_position_eq(s1, s2);
        }
        if s1[0] == s2[0] && s1[1] == s2[1] {
            k = k + 1;
            continue;
        }
        let ghost before = arena@;
        let ghost qbefore = queue@;
        let e1_idx = arena.len();
        let mut e1 = SweepEvent::new(s1, false, polygon_type, EdgeType::Normal);
        e1.contour_id = Some(contour_id);
        let mut e2 = SweepEvent::new(s2, false, polygon_type, EdgeType::Normal);
        e2.other_event = Some(e1_idx);
        e2.contour_id = Some(contour_id);
        if !is_exterior_ring {
            e1.is_exterior_ring = false;
            e2.is_exterior_ring = false;
        }
        arena.push(e1);
        let e2_idx = arena.len();
        arena.push(e2);
        let mut e1 = arena[e1_idx];
        e1.other_event = Some(e2_idx);
        arena.set(e1_idx, e1);
        proof {
            lemma_distinct_points_order(arena@, e1_idx, e2_idx);
        }
        if comes_after(arena, e1_idx, e2_idx) {
            let mut e = arena[e2_idx];
            e.left = true;
            arena.set(e2_idx, e);
        } else {
            let mut e = arena[e1_idx];
            e.left = true;
            arena.set(e1_idx, e);
        }
        proof {
            assert(arena@ =~= before + edge_pair(s1, s2, polygon_type, contour_id, is_exterior_ring, before.len() as int));
            if wf_arena(a0) {
                lemma_append_pair_wf(before, s1, s2, polygon_type, contour_id, is_exterior_ring);
            }
        }
        let x = s1[0] as i64;
        let y = s1[1] as i64;
        if x < bbox[0] {
            bbox[0] = x;
        }
        if y < bbox[1] {
            bbox[1] = y;
        }
        if x > bbox[2] {
            bbox[2] = x;
        }
        if y > bbox[3] {
            bbox[3] = y;
        }
        proof {
            if heap_ordered(a0, q0) {
                assert forall|j: int| 0 <= j < qbefore.len() implies arena@[#[trigger] qbefore[j] as int].point == before[qbefore[j] as int].point by {
                    assert(qbefore[j] < before.len());
                }
                lemma_heap_frame(before, arena@, qbefore);
            }
            if output_ready(a0) {
                assert forall|i: int| 0 <= i < arena@.len() implies (#[trigger] arena@[i]).output_contour_id < 0 && (arena@[i].prev_in_result matches Some(j) ==> j < arena@.len()) by {
                    if i < before.len() {
                        assert(arena@[i] == before[i]);
                    }
                }
            }
            lemma_links_comparable(before, qbefore);
            assert forall|j: int| 0 <= j < queue@.push(e1_idx).len() implies #[trigger] queue@.push(e1_idx)[j] < arena@.len()
                && link_ok(arena@, queue@.push(e1_idx)[j]) by {
                if j < queue@.len() {
                    assert(queue@.push(e1_idx)[j] == qbefore[j]);
                    assert(arena@[qbefore[j] as int] == before[qbefore[j] as int]);
                }
            }
            lemma_links_comparable(arena@, queue@.push(e1_idx));
        }
        queue.push(arena, e1_idx);
        let ghost q1 = queue@;
        proof {
            assert forall|j: int| 0 <= j < queue@.len() implies #[trigger] queue@[j] < arena@.len() by {
                assert(queue@.contains(queue@[j]));
            }
            assert forall|j: int| 0 <= j < q1.push(e2_idx).len() implies #[trigger] q1.push(e2_idx)[j] < arena@.len()
                && link_ok(arena@, q1.push(e2_idx)[j]) by {
                let x = q1.push(e2_idx)[j];
                if j < q1.len() {
                    assert(q1[j] == x);
                    assert(q1.contains(x));
                    if x != e1_idx {
                        assert(qbefore.contains(x));
                        let m = choose|m: int| 0 <= m < qbefore.len() && qbefore[m] == x;
                        assert(qbefore[m] < before.len() && link_ok(before, qbefore[m]));
                        assert(arena@[x as int] == before[x as int]);
                    }
                }
            }
            lemma_links_comparable(arena@, q1.push(e2_idx));
        }
        queue.push(arena, e2_idx);
        proof {
            assert forall|j: int| 0 <= j < queue@.len() implies #[trigger] queue@[j] < arena@.len() by {
                assert(queue@.contains(queue@[j]));
            }
            lemma_links_comparable(arena@, q1.push(e2_idx));
            assert forall|j: int| 0 <= j < queue@.len() implies #[trigger] queue@[j] < arena@.len() && link_ok(arena@, queue@[j]) by {
                let x = queue@[j];
                assert(queue@.contains(x));
                if x == e2_idx {
                    assert(q1.push(e2_idx)[q1.len() as int] == x);
                } else {
                    assert(q1.contains(x));
                    let m = choose|m: int| 0 <= m < q1.len() && q1[m] == x;
                    assert(q1.push(e2_idx)[m] == x);
                }
            }
            lemma_links_comparable(arena@, queue@);
            broadcast use vstd::multiset::group_multiset_axioms;
            broadcast use vstd::seq_lib::to_multiset_build;
            let r0 = index_range(a0.len() as int, before.len() as int);
            assert(index_range(a0.len() as int, arena@.len() as int) =~= r0.push(e1_idx).push(e2_idx));
            assert(queue@.to_multiset() =~= q0.to_multiset().add(r0.push(e1_idx).push(e2_idx).to_multiset()));
        }
        k = k + 1;
    }
    proof {
        assert(k as int == ring_windows(ring@));
    }
}

/// `q` is a vertex of some ring of some polygon of `mp`.
pub open spec fn mp_vertex(mp: Seq<Seq<Seq<Position>>>, q: Position) -> bool {
    exists|p: int, r: int, k: int|
        0 <= p < mp.len() && 0 <= r < mp[p].len() && 0 <= k < mp[p][r].len() && #[trigger] mp[p][r][k]
            == q
}

/// The events of the first `k` edges of a ring sit at vertices of the ring.
pub proof fn lemma_ring_events_vertices(ring: Seq<Position>, k: int, ptype: PolygonType, cid: i32, ext: bool, base: int)
    requires
        0 <= k < ring.len(),
    ensures
        forall|i: int|
            0 <= i < ring_events(ring, k, ptype, cid, ext, base).len() ==> exists|j: int|
                0 <= j < ring.len() && #[trigger] ring[j] == (#[trigger] ring_events(ring, k, ptype, cid, ext, base)[i]).point,
    decreases k,
{
    if k > 0 {
        lemma_ring_events_vertices(ring, k - 1, ptype, cid, ext, base);
        let prev = ring_events(ring, k - 1, ptype, cid, ext, base);
        let cur = ring_events(ring, k, ptype, cid, ext, base);
        assert forall|i: int| 0 <= i < cur.len() implies exists|j: int|
            0 <= j < ring.len() && #[trigger] ring[j] == (#[trigger] cur[i]).point by {
            if i < prev.len() {
                assert(cur[i] == prev[i]);
                let j = choose|j: int| 0 <= j < ring.len() && #[trigger] ring[j] == prev[i].point;
                assert(ring[j] == cur[i].point);
            } else if i == prev.len() {
                assert(ring[k - 1] == cur[i].point);
            } else {
                assert(ring[k] == cur[i].point);
            }
        }
    }
}

/// Walking rings of a polygon keeps the events so far and appends events
/// at vertices of the polygon.
pub proof fn lemma_poly_fill_vertices(poly: Seq<Seq<Position>>, r: int, ptype: PolygonType, ext_allowed: bool, s: FillState, base: int)
    requires
        0 <= r <= poly.len(),
    ensures
        poly_fill(poly, r, ptype, ext_allowed, s, base).events.len() >= s.events.len(),
        forall|i: int|
            0 <= i < s.events.len() ==> #[trigger] poly_fill(poly, r, ptype, ext_allowed, s, base).events[i]
                == s.events[i],
        forall|i: int|
            s.events.len() <= i < poly_fill(poly, r, ptype, ext_allowed, s, base).events.len() ==> exists|
                q: int,
                j: int,
            |
                0 <= q < poly.len() && 0 <= j < poly[q].len() && #[trigger] poly[q][j] == (
                #[trigger] poly_fill(poly, r, ptype, ext_allowed, s, base).events[i]).point,
    decreases r,
{
    if r > 0 {
        lemma_poly_fill_vertices(poly, r - 1, ptype, ext_allowed, s, base);
        let prev = poly_fill(poly, r - 1, ptype, ext_allowed, s, base);
        let cur = poly_fill(poly, r, ptype, ext_allowed, s, base);
        let ring = poly[r - 1];
        let ext = r - 1 == 0 && ext_allowed;
        let cid = if ext { prev.cid + 1 } else { prev.cid };
        let re = ring_events(ring, ring_windows(ring), ptype, cid as i32, ext, base + prev.events.len());
        assert(cur.events == prev.events + re);
        if ring.len() >= 1 {
            lemma_ring_events_vertices(ring, ring_windows(ring), ptype, cid as i32, ext, base + prev.events.len());
        } else {
            assert(re.len() == 0);
        }
        assert forall|i: int| s.events.len() <= i < cur.events.len() implies exists|q: int, j: int|
            0 <= q < poly.len() && 0 <= j < poly[q].len() && #[trigger] poly[q][j] == (
            #[trigger] cur.events[i]).point by {
            if i < prev.events.len() {
                assert(cur.events[i] == prev.events[i]);
                let (q, j) = choose|q: int, j: int|
                    0 <= q < poly.len() && 0 <= j < poly[q].len() && #[trigger] poly[q][j] == (
                    #[trigger] prev.events[i]).point;
                assert(poly[q][j] == cur.events[i].point);
            } else {
                let t = i - prev.events.len();
                assert(cur.events[i] == re[t]);
                let j = choose|j: int| 0 <= j < ring.len() && #[trigger] ring[j] == (#[trigger] re[t]).point;
                assert(poly[r - 1][j] == cur.events[i].point);
            }
        }
        assert forall|i: int| 0 <= i < s.events.len() implies #[trigger] cur.events[i] == s.events[i] by {
            assert(cur.events[i] == prev.events[i]);
        }
    }
}

/// Walking polygons keeps the events so far and appends events at
/// vertices of the polygons.
pub proof fn lemma_mp_fill_vertices(mp: Seq<Seq<Seq<Position>>>, p: int, ptype: PolygonType, ext_allowed: bool, s: FillState, base: int)
    requires
        0 <= p <= mp.len(),
    ensures
        mp_fill(mp, p, ptype, ext_allowed, s, base).events.len() >= s.events.len(),
        forall|i: int|
            0 <= i < s.events.len() ==> #[trigger] mp_fill(mp, p, ptype, ext_allowed, s, base).events[i]
                == s.events[i],
        forall|i: int|
            s.events.len() <= i < mp_fill(mp, p, ptype, ext_allowed, s, base).events.len() ==> mp_vertex(
                mp,
                (#[trigger] mp_fill(mp, p, ptype, ext_allowed, s, base).events[i]).point,
            ),
    decreases p,
{
    if p > 0 {
        lemma_mp_fill_vertices(mp, p - 1, ptype, ext_allowed, s, base);
        let prev = mp_fill(mp, p - 1, ptype, ext_allowed, s, base);
        let cur = mp_fill(mp, p, ptype, ext_allowed, s, base);
        let poly = mp[p - 1];
        lemma_poly_fill_vertices(poly, poly.len() as int, ptype, ext_allowed, prev, base);
        assert forall|i: int| s.events.len() <= i < cur.events.len() implies mp_vertex(
            mp,
            (#[trigger] cur.events[i]).point,
        ) by {
            if i < prev.events.len() {
                assert(cur.events[i] == prev.events[i]);
            } else {
                let (q, j) = choose|q: int, j: int|
                    0 <= q < poly.len() && 0 <= j < poly[q].len() && #[trigger] poly[q][j] == (
                    #[trigger] cur.events[i]).point;
                assert(mp[p - 1][q][j] == cur.events[i].point);
            }
        }
        assert forall|i: int| 0 <= i < s.events.len() implies #[trigger] cur.events[i] == s.events[i] by {
            assert(cur.events[i] == prev.events[i]);
        }
    }
}

} // verus!
