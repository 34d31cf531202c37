//! The four Boolean operations and their driver.
//!
//! Pipeline: normalise both inputs to multipolygons; answer at once when
//! an input is empty; build the event queue and the two bounding boxes;
//! answer at once when the boxes are disjoint; run the sweep; stitch the
//! result events into contours; emit each exterior contour followed by
//! its holes as one polygon.
use crate::connect_edges::{connect_edges, hole_tree};
use crate::contour::Contour;
use crate::event_queue::EventQueue;
use crate::fill_queue::{bbox_tuple, fill_queue, fill_result, index_range, lemma_mp_fill_vertices, mp_fill, mp_vertex, mp_view, poly_view, FillState};
use crate::split_progress::{lemma_spanned_self, spanned};
use crate::operation::{in_result_region, Operation};
use crate::subdivide_segments::{keeps_points, subdivide_segments, sweep_start};
use crate::sweep_event::PolygonType;
use crate::sweep_event::SweepEvent;
use crate::types::{geometry_polygons, BBox, Geometry, MultiPolygon, Polygon, Position, Ring};
use vstd::prelude::*;

verus! {

/// The result when an input is empty: no intersection; the subject for
/// difference; the non-empty input (or the subject) for union and xor.
pub open spec fn trivial_result(s: Seq<Polygon>, c: Seq<Polygon>, operation: Operation) -> Option<Seq<Polygon>> {
    match operation {
        Operation::Intersection => None,
        Operation::Difference => Some(s),
        Operation::Union | Operation::Xor => Some(if s.len() == 0 { c } else { s }),
    }
}

/// The result when the bounding boxes of the inputs are disjoint: no
/// intersection; the subject for difference; both inputs side by side for
/// union and xor.
pub open spec fn disjoint_result(s: Seq<Polygon>, c: Seq<Polygon>, operation: Operation) -> Option<Seq<Polygon>> {
    match operation {
        Operation::Intersection => None,
        Operation::Difference => Some(s),
        Operation::Union | Operation::Xor => Some(s + c),
    }
}

/// The empty bounding box: its minima above, its maxima below every
/// coordinate.
pub open spec fn empty_bbox() -> BBox {
    [i64::MAX, i64::MAX, i64::MIN, i64::MIN]
}

/// Whether two bounding boxes `(min_x, min_y, max_x, max_y)` are apart.
pub open spec fn boxes_apart(sb: (i64, i64, i64, i64), cb: (i64, i64, i64, i64)) -> bool {
    sb.0 > cb.2 || cb.0 > sb.2 || sb.1 > cb.3 || cb.1 > sb.3
}

/// The walks of the two inputs that build the event queue; see
/// [`fill_result`].
pub open spec fn input_fill(s: Seq<Polygon>, c: Seq<Polygon>, operation: Operation) -> (FillState, FillState) {
    let fs = mp_fill(
        s.map_values(|p: Polygon| poly_view(p)),
        s.len() as int,
        PolygonType::Subject,
        true,
        FillState { events: Seq::empty(), cid: 0, bbox: bbox_tuple(empty_bbox()) },
        0,
    );
    let fc = mp_fill(
        c.map_values(|p: Polygon| poly_view(p)),
        c.len() as int,
        PolygonType::Clipping,
        operation != Operation::Difference,
        FillState { events: Seq::empty(), cid: fs.cid, bbox: bbox_tuple(empty_bbox()) },
        fs.events.len() as int,
    );
    (fs, fc)
}

/// Whether the bounding boxes of the edges of the two inputs are apart
/// (an input without edges has the empty box, apart from every box).
pub open spec fn inputs_apart(s: Seq<Polygon>, c: Seq<Polygon>, operation: Operation) -> bool {
    boxes_apart(input_fill(s, c, operation).0.bbox, input_fill(s, c, operation).1.bbox)
}

/// The walk of two multipolygons is the walk of their polygon lists.
pub open spec fn mp_view_eq(s: MultiPolygon, c: MultiPolygon, operation: Operation) -> bool {
    fill_result(s, c, operation, empty_bbox(), empty_bbox(), 0) == input_fill(s@, c@, operation)
}

/// Whether `r` is the option of the multipolygon `m`.
pub open spec fn result_is(r: Option<MultiPolygon>, m: Option<Seq<Polygon>>) -> bool {
    match m {
        None => r is None,
        Some(t) => r matches Some(mp) && mp@ == t,
    }
}

/// Every polygon has an exterior ring, and every ring at least two points.
pub open spec fn rings_formed(mp: MultiPolygon) -> bool {
    forall|p: int|
        0 <= p < mp@.len() ==> (#[trigger] mp@[p])@.len() >= 1 && forall|q: int|
            0 <= q < mp@[p]@.len() ==> (#[trigger] mp@[p]@[q])@.len() >= 2
}

/// `u` is a vertex of some ring of some polygon of `mp`.
pub open spec fn vertex_of(mp: Seq<Polygon>, u: Position) -> bool {
    exists|p: int, r: int, k: int|
        0 <= p < mp.len() && 0 <= r < mp[p]@.len() && 0 <= k < mp[p]@[r]@.len() && #[trigger] mp[p]@[r]@[k]
            == u
}

/// `u` is a vertex of one of the two inputs.
pub open spec fn input_vertex(s: Seq<Polygon>, c: Seq<Polygon>, u: Position) -> bool {
    vertex_of(s, u) || vertex_of(c, u)
}

/// `q` lies in the bounding box of the vertices of the two inputs.
pub open spec fn in_input_box(s: Seq<Polygon>, c: Seq<Polygon>, q: Position) -> bool {
    &&& exists|u: Position, v: Position|
        #[trigger] input_vertex(s, c, u) && #[trigger] input_vertex(s, c, v) && u[0] <= q[0] && q[0]
            <= v[0]
    &&& exists|u: Position, v: Position|
        #[trigger] input_vertex(s, c, u) && #[trigger] input_vertex(s, c, v) && u[1] <= q[1] && q[1]
            <= v[1]
}

/// Every vertex of `mp` lies in the bounding box of the vertices of the
/// two inputs.
pub open spec fn within_inputs(mp: MultiPolygon, s: Seq<Polygon>, c: Seq<Polygon>) -> bool {
    forall|p: int, q: int, k: int|
        0 <= p < mp@.len() && 0 <= q < mp@[p]@.len() && 0 <= k < mp@[p]@[q]@.len() ==> in_input_box(
            s,
            c,
            #[trigger] mp@[p]@[q]@[k],
        )
}

/// The rings of the polygon that contour `c` opens: its own points, then
/// the points of each of its holes, in the order the holes were found.
pub open spec fn contour_polygon(cs: Seq<Contour>, c: int) -> Seq<Seq<Position>> {
    seq![cs[c].points@] + cs[c].hole_ids@.map_values(|h: usize| cs[h as int].points@)
}

/// The polygons assembled from the first `k` contours: one per exterior
/// contour, in contour order, each made by [`contour_polygon`].
pub open spec fn assembled(cs: Seq<Contour>, k: int) -> Seq<Seq<Seq<Position>>>
    decreases k,
{
    if k <= 0 {
        Seq::empty()
    } else {
        let prev = assembled(cs, k - 1);
        if cs[k - 1].hole_of is None {
            prev.push(contour_polygon(cs, k - 1))
        } else {
            prev
        }
    }
}

/// The contour indices behind [`assembled`]: for each polygon, its
/// exterior contour followed by its holes.
pub open spec fn assembled_ids(cs: Seq<Contour>, k: int) -> Seq<Seq<int>>
    decreases k,
{
    if k <= 0 {
        Seq::empty()
    } else {
        let prev = assembled_ids(cs, k - 1);
        if cs[k - 1].hole_of is None {
            prev.push(seq![k - 1] + cs[k - 1].hole_ids@.map_values(|h: usize| h as int))
        } else {
            prev
        }
    }
}

/// Contour `j` is some ring of some polygon in `ids`.
pub open spec fn ring_of_some(ids: Seq<Seq<int>>, j: int) -> bool {
    exists|p: int, q: int| 0 <= p < ids.len() && 0 <= q < ids[p].len() && #[trigger] ids[p][q] == j
}

/// The shape of [`assembled_ids`] up to `k`, which contours it uses, and
/// that it uses none twice.
proof fn lemma_ids_prefix(cs: Seq<Contour>, k: int)
    requires
        hole_tree(cs),
        cs.len() <= usize::MAX,
        0 <= k <= cs.len(),
    ensures
        assembled_ids(cs, k).len() == assembled(cs, k).len(),
        forall|p: int| 0 <= p < assembled_ids(cs, k).len() ==> #[trigger] assembled_ids(cs, k)[p].len() == assembled(cs, k)[p].len()
            && assembled_ids(cs, k)[p].len() >= 1 && cs[assembled_ids(cs, k)[p][0]].hole_of is None,
        forall|p: int, q: int|
            0 <= p < assembled_ids(cs, k).len() && 0 <= q < assembled_ids(cs, k)[p].len() ==> {
                let j = #[trigger] assembled_ids(cs, k)[p][q];
                &&& 0 <= j < cs.len()
                &&& assembled(cs, k)[p][q] == cs[j].points@
                &&& cs[j].hole_of is None ==> j < k && q == 0
                &&& cs[j].hole_of matches Some(h) ==> h < k && q > 0 && h == assembled_ids(cs, k)[p][0]
            },
        forall|j: int|
            0 <= j < cs.len() && ((j < k && cs[j].hole_of is None) || (cs[j].hole_of matches Some(h) && h < k))
                ==> #[trigger] ring_of_some(assembled_ids(cs, k), j),
        forall|p1: int, q1: int, p2: int, q2: int|
            0 <= p1 < assembled_ids(cs, k).len() && 0 <= q1 < assembled_ids(cs, k)[p1].len() && 0 <= p2
                < assembled_ids(cs, k).len() && 0 <= q2 < assembled_ids(cs, k)[p2].len() && #[trigger] assembled_ids(
                cs,
                k,
            )[p1][q1] == #[trigger] assembled_ids(cs, k)[p2][q2] ==> p1 == p2 && q1 == q2,
    decreases k,
{
    if k > 0 {
        lemma_ids_prefix(cs, k - 1);
        let prev = assembled_ids(cs, k - 1);
        let pa = assembled(cs, k - 1);
        let ids = assembled_ids(cs, k);
        let polys = assembled(cs, k);
        let c = k - 1;
        if cs[c].hole_of is None {
            let holes = cs[c].hole_ids@;
            let row = seq![c] + holes.map_values(|h: usize| h as int);
            assert(ids == prev.push(row));
            assert(polys == pa.push(contour_polygon(cs, c)));
            assert forall|q: int| 0 < q < row.len() implies #[trigger] row[q] == holes[q - 1] as int by {}
            assert forall|p: int, q: int|
                0 <= p < ids.len() && 0 <= q < ids[p].len() implies {
                let j = #[trigger] ids[p][q];
                &&& 0 <= j < cs.len()
                &&& polys[p][q] == cs[j].points@
                &&& cs[j].hole_of is None ==> j < k && q == 0
                &&& cs[j].hole_of matches Some(h) ==> h < k && q > 0 && h == ids[p][0]
            } by {
                if p < prev.len() {
                    assert(ids[p] == prev[p]);
                    assert(polys[p] == pa[p]);
                } else {
                    assert(ids[p] == row);
                    if q > 0 {
                        assert(row[q] == holes[q - 1] as int);
                        assert(c < holes[q - 1] < cs.len());
                    }
                }
            }
            assert forall|j: int|
                0 <= j < cs.len() && ((j < k && cs[j].hole_of is None) || (cs[j].hole_of matches Some(h) && h < k))
                    implies #[trigger] ring_of_some(ids, j) by {
                if (j < c && cs[j].hole_of is None) || (cs[j].hole_of matches Some(h) && h < c) {
                    assert(ring_of_some(prev, j));
                    let (p, q) = choose|p: int, q: int| 0 <= p < prev.len() && 0 <= q < prev[p].len() && #[trigger] prev[p][q] == j;
                    assert(ids[p] == prev[p]);
                    assert(ids[p][q] == j);
                } else if j == c {
                    assert(ids[prev.len() as int][0] == j);
                } else {
                    assert(cs[j].hole_of == Some(c as usize));
                    assert(holes.contains(j as usize));
                    let m = choose|m: int| 0 <= m < holes.len() && holes[m] == j as usize;
                    assert(row[m + 1] == j);
                    assert(ids[prev.len() as int][m + 1] == j);
                }
            }
            assert forall|p1: int, q1: int, p2: int, q2: int|
                0 <= p1 < ids.len() && 0 <= q1 < ids[p1].len() && 0 <= p2 < ids.len() && 0 <= q2 < ids[p2].len()
                    && #[trigger] ids[p1][q1] == #[trigger] ids[p2][q2] implies p1 == p2 && q1 == q2 by {
                let j = ids[p1][q1];
                if p1 < prev.len() && p2 < prev.len() {
                    assert(ids[p1] == prev[p1] && ids[p2] == prev[p2]);
                } else if p1 < prev.len() || p2 < prev.len() {
                    let (pp, qq, rq) = if p1 < prev.len() { (p1, q1, q2) } else { (p2, q2, q1) };
                    assert(ids[pp] == prev[pp]);
                    assert(prev[pp][qq] == j);
                    if rq == 0 {
                        assert(j == c);
                    } else {
                        assert(row[rq] == holes[rq - 1] as int);
                        assert(cs[j].hole_of == Some(c as usize));
                    }
                } else {
                    if q1 > 0 && q2 > 0 {
                        assert(row[q1] == holes[q1 - 1] as int && row[q2] == holes[q2 - 1] as int);
                        assert(holes.no_duplicates());
                    } else if q1 > 0 {
                        assert(row[q1] == holes[q1 - 1] as int);
                    } else if q2 > 0 {
                        assert(row[q2] == holes[q2 - 1] as int);
                    }
                }
            }
        } else {
            assert(ids == prev);
            assert(polys == pa);
            assert forall|j: int|
                0 <= j < cs.len() && ((j < k && cs[j].hole_of is None) || (cs[j].hole_of matches Some(h) && h < k))
                    implies #[trigger] ring_of_some(ids, j) by {
                if let Some(h) = cs[j].hole_of {
                    assert(h != c);
                }
                assert(ring_of_some(prev, j));
            }
        }
    }
}

/// In the polygons assembled from a hole hierarchy every contour is one
/// ring of exactly one polygon: each exterior contour opens a polygon of
/// its own, each hole follows the exterior contour it is a hole of, and
/// no contour is left out or used twice.
pub proof fn lemma_assembly_uses_each_contour_once(cs: Seq<Contour>)
    requires
        hole_tree(cs),
        cs.len() <= usize::MAX,
    ensures
        ({
            let ids = assembled_ids(cs, cs.len() as int);
            let polys = assembled(cs, cs.len() as int);
            &&& ids.len() == polys.len()
            &&& forall|p: int| 0 <= p < ids.len() ==> #[trigger] ids[p].len() == polys[p].len() && ids[p].len() >= 1
                && cs[ids[p][0]].hole_of is None
            &&& forall|p: int, q: int|
                0 <= p < ids.len() && 0 < q < ids[p].len() ==> cs[#[trigger] ids[p][q]].hole_of == Some(ids[p][0] as usize)
            &&& forall|p: int, q: int|
                0 <= p < ids.len() && 0 <= q < ids[p].len() ==> 0 <= #[trigger] ids[p][q] < cs.len() && polys[p][q]
                    == cs[ids[p][q]].points@
            &&& forall|j: int| 0 <= j < cs.len() ==> #[trigger] ring_of_some(ids, j)
            &&& forall|p1: int, q1: int, p2: int, q2: int|
                0 <= p1 < ids.len() && 0 <= q1 < ids[p1].len() && 0 <= p2 < ids.len() && 0 <= q2 < ids[p2].len()
                    && #[trigger] ids[p1][q1] == #[trigger] ids[p2][q2] ==> p1 == p2 && q1 == q2
        }),
{
    let n = cs.len() as int;
    lemma_ids_prefix(cs, n);
    let ids = assembled_ids(cs, n);
    assert forall|p: int, q: int| 0 <= p < ids.len() && 0 < q < ids[p].len() implies cs[#[trigger] ids[p][q]].hole_of
        == Some(ids[p][0] as usize) by {
        let j = ids[p][q];
        if cs[j].hole_of is None {
            assert(q == 0);
        }
    }
    assert forall|j: int| 0 <= j < n implies #[trigger] ring_of_some(ids, j) by {
        if let Some(h) = cs[j].hole_of {
            assert(h < j);
        }
    }
}

/// Contours as stitching leaves them: a hole hierarchy (each hole listed
/// once, under its one exterior contour) of no more contours than a
/// `usize` counts, every contour of two points or more, every point in the
/// bounding box of the input vertices.
pub open spec fn contours_formed(cs: Seq<Contour>, s: Seq<Polygon>, c: Seq<Polygon>) -> bool {
    &&& hole_tree(cs)
    &&& cs.len() <= usize::MAX
    &&& forall|k: int| 0 <= k < cs.len() ==> (#[trigger] cs[k]).points@.len() >= 2
    &&& forall|k: int, j: int| 0 <= k < cs.len() && 0 <= j < cs[k].points@.len() ==> in_input_box(s, c, #[trigger] cs[k].points@[j])
}

/// The result of the sweep case: the polygons assembled from contours
/// formed as stitching forms them, each contour one ring of one polygon
/// ([`lemma_assembly_uses_each_contour_once`]).
pub open spec fn from_contours(mp: MultiPolygon, s: Seq<Polygon>, c: Seq<Polygon>) -> bool {
    exists|cs: Seq<Contour>| contours_formed(cs, s, c) && #[trigger] mp_view(mp) == assembled(cs, cs.len() as int)
}

/// The polygons of an operation on inputs that lie apart: the subject's
/// polygons where the result keeps what is inside the subject alone, then
/// the clipping's where it keeps what is inside the clipping alone; `None`
/// when it keeps neither.
pub open spec fn kept_apart(s: Seq<Polygon>, c: Seq<Polygon>, operation: Operation) -> Option<Seq<Polygon>> {
    let ks = in_result_region(operation, true, false);
    let kc = in_result_region(operation, false, true);
    if !ks && !kc {
        None
    } else {
        Some((if ks { s } else { Seq::empty() }) + (if kc { c } else { Seq::empty() }))
    }
}

/// What a Boolean operation returns: see [`trivial_result`] for an empty
/// input and [`disjoint_result`] for inputs with disjoint bounding boxes;
/// otherwise `Some` polygons of well-formed rings whose vertices lie in the
/// bounding box of the vertices of the inputs, one per exterior contour of
/// the stitched result, each followed by its holes ([`from_contours`]);
/// when the sweep yields more result events than an `i32` position can
/// count, stitching does not run and the result is the assembly of no
/// contours, the empty multipolygon. `None` comes only for an
/// intersection: always in the first two cases, and in the sweep case
/// exactly when no polygon results, so an intersection never returns an
/// empty `Some`. In the meaning of the operations ([`in_result_region`]):
/// with an empty clipping the result is the subject when the operation
/// keeps what lies in the subject alone, else `None`; with an empty subject
/// it is the clipping when the operation keeps what lies in the clipping
/// alone, else no polygon; inputs that lie apart give [`kept_apart`].
pub open spec fn op_result(r: Option<MultiPolygon>, subject: Geometry, clipping: Geometry, operation: Operation) -> bool {
    let s = geometry_polygons(subject);
    let c = geometry_polygons(clipping);
    &&& (s.len() == 0 || c.len() == 0) ==> result_is(r, trivial_result(s, c, operation))
    &&& (s.len() > 0 && c.len() > 0 && inputs_apart(s, c, operation)) ==> result_is(
        r,
        disjoint_result(s, c, operation),
    )
    &&& (s.len() > 0 && c.len() > 0 && !inputs_apart(s, c, operation)) ==> (r matches Some(mp) ==> (
        rings_formed(mp) && within_inputs(mp, s, c) && from_contours(mp, s, c)))
    &&& (r is None ==> operation == Operation::Intersection)
    &&& (operation == Operation::Intersection && (s.len() == 0 || c.len() == 0 || inputs_apart(s, c, operation)))
        ==> r is None
    &&& (operation == Operation::Intersection ==> (r matches Some(mp) ==> mp@.len() > 0))
    &&& c.len() == 0 ==> result_is(r, if in_result_region(operation, true, false) { Some(s) } else { None })
    &&& (s.len() == 0 && c.len() > 0 && in_result_region(operation, false, true)) ==> result_is(r, Some(c))
    &&& (s.len() == 0 && !in_result_region(operation, false, true)) ==> (r matches Some(mp) ==> mp@.len() == 0)
    &&& (s.len() > 0 && c.len() > 0 && inputs_apart(s, c, operation)) ==> result_is(r, kept_apart(s, c, operation))
}

/// A vertex of the view of a multipolygon is one of its vertices.
proof fn lemma_view_vertex(m: MultiPolygon, u: Position)
    requires
        mp_vertex(mp_view(m), u),
    ensures
        vertex_of(m@, u),
{
    let mv = mp_view(m);
    let (p, r, k) = choose|p: int, r: int, k: int|
        0 <= p < mv.len() && 0 <= r < mv[p].len() && 0 <= k < mv[p][r].len() && #[trigger] mv[p][r][k]
            == u;
    assert(mv[p] == poly_view(m@[p]));
    assert(poly_view(m@[p])[r] == m@[p]@[r]@);
    assert(m@[p]@[r]@[k] == u);
}

/// Every event of the initial queue sits at a vertex of an input.
proof fn lemma_fill_vertices(sm: MultiPolygon, cm: MultiPolygon, operation: Operation, a: Seq<SweepEvent>)
    requires
        a == fill_result(sm, cm, operation, empty_bbox(), empty_bbox(), 0).0.events + fill_result(
            sm,
            cm,
            operation,
            empty_bbox(),
            empty_bbox(),
            0,
        ).1.events,
    ensures
        forall|i: int| 0 <= i < a.len() ==> input_vertex(sm@, cm@, #[trigger] a[i].point),
{
    let (fs, fc) = fill_result(sm, cm, operation, empty_bbox(), empty_bbox(), 0);
    let s0 = FillState { events: Seq::empty(), cid: 0, bbox: bbox_tuple(empty_bbox()) };
    let c0 = FillState { events: Seq::empty(), cid: fs.cid, bbox: bbox_tuple(empty_bbox()) };
    lemma_mp_fill_vertices(mp_view(sm), sm@.len() as int, PolygonType::Subject, true, s0, 0);
    lemma_mp_fill_vertices(
        mp_view(cm),
        cm@.len() as int,
        PolygonType::Clipping,
        operation != Operation::Difference,
        c0,
        fs.events.len() as int,
    );
    assert forall|i: int| 0 <= i < a.len() implies input_vertex(sm@, cm@, #[trigger] a[i].point) by {
        if i < fs.events.len() {
            assert(a[i] == fs.events[i]);
            lemma_view_vertex(sm, a[i].point);
        } else {
            assert(a[i] == fc.events[i - fs.events.len()]);
            lemma_view_vertex(cm, a[i].point);
        }
    }
}

/// A point of an event of the sweep lies in the box of the inputs when
/// the initial events sit at input vertices.
proof fn lemma_event_in_box(a0: Seq<SweepEvent>, a1: Seq<SweepEvent>, s: Seq<Polygon>, c: Seq<Polygon>, i: int)
    requires
        forall|j: int| 0 <= j < a0.len() ==> input_vertex(s, c, #[trigger] a0[j].point),
        keeps_points(a0, a1),
        0 <= i < a1.len(),
    ensures
        in_input_box(s, c, a1[i].point),
{
    let q = a1[i].point;
    if i < a0.len() {
        lemma_spanned_self(a0, i);
    }
    assert(spanned(a0, q));
    let (x0, x1) = choose|u: int, v: int|
        #![trigger a0[u], a0[v]]
        0 <= u < a0.len() && 0 <= v < a0.len() && a0[u].point[0] <= q[0] && q[0] <= a0[v].point[0];
    let (y0, y1) = choose|u: int, v: int|
        #![trigger a0[u], a0[v]]
        0 <= u < a0.len() && 0 <= v < a0.len() && a0[u].point[1] <= q[1] && q[1] <= a0[v].point[1];
    assert(input_vertex(s, c, a0[x0].point));
    assert(input_vertex(s, c, a0[x1].point));
    assert(input_vertex(s, c, a0[y0].point));
    assert(input_vertex(s, c, a0[y1].point));
}

/// A copy of a ring.
fn copy_ring(points: &Vec<Position>) -> (ring: Ring)
    ensures
        ring@ == points@,
{
    let mut ring: Ring = Vec::new();
    let mut j: usize = 0;
    while j < points.len()
        invariant
            j <= points@.len(),
            ring@ == points@.subrange(0, j as int),
        decreases points@.len() - j,
    {
        ring.push(points[j]);
        j = j + 1;
    }
    ring
}

/// Run one Boolean operation.
///
/// See [`trivial_result`] for an empty input and [`disjoint_result`] for
/// disjoint bounding boxes. Otherwise the sweep runs and the result is one
/// polygon per exterior contour, its holes after it; an intersection with
/// no polygon is `None`, every other result `Some`. See [`op_result`].
pub fn boolean_op(subject: Geometry, clipping: Geometry, operation: Operation) -> (r: Option<MultiPolygon>)
    requires
        geometry_polygons(subject).len() + geometry_polygons(clipping).len() <= i32::MAX,
    ensures
        op_result(r, subject, clipping, operation),
{
    let subject_mp = subject.into_multi();
    let clipping_mp = clipping.into_multi();
    if subject_mp.len() == 0 || clipping_mp.len() == 0 {
        return match operation {
            Operation::Intersection => None,
            Operation::Difference => Some(subject_mp),
            Operation::Union | Operation::Xor => Some(
                if subject_mp.len() == 0 {
                    clipping_mp
                } else {
                    subject_mp
                },
            ),
        };
    }
    let mut sbbox: BBox = [i64::MAX, i64::MAX, i64::MIN, i64::MIN];
    let mut cbbox: BBox = [i64::MAX, i64::MAX, i64::MIN, i64::MIN];
    let mut arena: Vec<SweepEvent> = Vec::new();
    let mut queue = EventQueue::new();
    let ghost q_empty = queue@;
    proof {
        assert(mp_view_eq(subject_mp, clipping_mp, operation));
        assert(q_empty.to_multiset() =~= vstd::multiset::Multiset::empty()) by {
            broadcast use vstd::seq_lib::group_to_multiset_ensures;
            assert(q_empty.len() == 0);
        }
    }
    fill_queue(&mut arena, &mut queue, &subject_mp, &clipping_mp, &mut sbbox, &mut cbbox, operation);
    let disjoint = sbbox[0] > cbbox[2] || cbbox[0] > sbbox[2] || sbbox[1] > cbbox[3] || cbbox[1]
        > sbbox[3];
    if disjoint {
        return match operation {
            Operation::Intersection => None,
            Operation::Difference => Some(subject_mp),
            Operation::Union | Operation::Xor => {
                let mut combined = subject_mp;
                let mut rest = clipping_mp;
                combined.append(&mut rest);
                Some(combined)
            },
        };
    }
    let ghost sv = subject_mp@;
    let ghost cv = clipping_mp@;
    let ghost a_fill = arena@;
    proof {
        broadcast use vstd::multiset::group_multiset_axioms;
        assert(queue@.to_multiset() =~= index_range(0, arena@.len() as int).to_multiset());
        assert(sweep_start(arena@, queue@));
        let (fs, fc) = fill_result(subject_mp, clipping_mp, operation, empty_bbox(), empty_bbox(), 0);
        assert(a_fill =~= fs.events + fc.events);
        lemma_fill_vertices(subject_mp, clipping_mp, operation, a_fill);
    }
    let sorted_events = subdivide_segments(&mut arena, &mut queue, sbbox, cbbox, operation);
    if sorted_events.len() > 0x7fff_ffff {
        // more result events than contour positions can count: the
        // assembly of no contours
        if operation == Operation::Intersection {
            return None;
        }
        let none: MultiPolygon = Vec::new();
        proof {
            let cs0 = Seq::<Contour>::empty();
            assert(contours_formed(cs0, sv, cv));
            assert(mp_view(none) =~= assembled(cs0, 0));
        }
        return Some(none);
    }
    let arena_len = arena.len();
    let ghost a_sub = arena@;
    proof {
        assert(arena@.len() == arena_len);
    }
    let contours = connect_edges(&mut arena, &sorted_events);
    proof {
        assert forall|c: int, j: int|
            0 <= c < contours@.len() && 0 <= j < contours@[c].points@.len() implies in_input_box(
            sv,
            cv,
            #[trigger] contours@[c].points@[j],
        ) by {
            let pt = contours@[c].points@[j];
            assert(crate::connect_edges::output_point(a_sub, sorted_events@, pt));
            let k = choose|k: int|
                0 <= k < sorted_events@.len() && crate::connect_edges::in_output(a_sub, sorted_events@[k])
                    && a_sub[sorted_events@[k] as int].point == pt;
            assert(sorted_events@[k] < a_sub.len());
            lemma_event_in_box(a_fill, a_sub, sv, cv, sorted_events@[k] as int);
        }
    }
    let mut polygons: MultiPolygon = Vec::new();
    let mut ci: usize = 0;
    while ci < contours.len()
        invariant
            ci <= contours@.len(),
            crate::connect_edges::hole_tree(contours@),
            forall|c: int| 0 <= c < contours@.len() ==> (#[trigger] contours@[c]).points@.len() >= 2,
            forall|c: int, j: int|
                0 <= c < contours@.len() && 0 <= j < contours@[c].points@.len() ==> in_input_box(
                    sv,
                    cv,
                    #[trigger] contours@[c].points@[j],
                ),
            rings_formed(polygons),
            within_inputs(polygons, sv, cv),
            mp_view(polygons) == assembled(contours@, ci as int),
        decreases contours@.len() - ci,
    {
        let contour = &contours[ci];
        if !contour.is_exterior() {
            proof {
                assert(assembled(contours@, ci as int + 1) == assembled(contours@, ci as int));
            }
            ci = ci + 1;
            continue;
        }
        let mut rings: Polygon = Vec::new();
        rings.push(copy_ring(&contour.points));
        proof {
            assert(contours@[ci as int].hole_ids@.take(0).map_values(|x: usize| contours@[x as int].points@) =~= Seq::<Seq<Position>>::empty());
            assert(poly_view(rings) =~= seq![contours@[ci as int].points@] + contours@[ci as int].hole_ids@.take(0).map_values(
                |x: usize| contours@[x as int].points@,
            ));
        }
        let mut h: usize = 0;
        while h < contour.hole_ids.len()
            invariant
                ci < contours@.len(),
                *contour == contours@[ci as int],
                crate::connect_edges::hole_tree(contours@),
                forall|c: int| 0 <= c < contours@.len() ==> (#[trigger] contours@[c]).points@.len() >= 2,
                forall|c: int, j: int|
                    0 <= c < contours@.len() && 0 <= j < contours@[c].points@.len() ==> in_input_box(
                        sv,
                        cv,
                        #[trigger] contours@[c].points@[j],
                    ),
                rings@.len() >= 1,
                forall|q: int| 0 <= q < rings@.len() ==> (#[trigger] rings@[q])@.len() >= 2,
                forall|q: int, k: int|
                    0 <= q < rings@.len() && 0 <= k < rings@[q]@.len() ==> in_input_box(
                        sv,
                        cv,
                        #[trigger] rings@[q]@[k],
                    ),
                h <= contour.hole_ids@.len(),
                poly_view(rings) == seq![contours@[ci as int].points@] + contours@[ci as int].hole_ids@.take(h as int).map_values(
                    |x: usize| contours@[x as int].points@,
                ),
            decreases contour.hole_ids@.len() - h,
        {
            let hole_id = contour.hole_ids[h];
            let ghost before_rings = rings@;
            let ghost bv = poly_view(rings);
            rings.push(copy_ring(&contours[hole_id].points));
            proof {
                assert forall|q: int, k: int|
                    0 <= q < rings@.len() && 0 <= k < rings@[q]@.len() implies in_input_box(
                    sv,
                    cv,
                    #[trigger] rings@[q]@[k],
                ) by {
                    if q < before_rings.len() {
                        assert(rings@[q] == before_rings[q]);
                    } else {
                        assert(rings@[q]@[k] == contours@[hole_id as int].points@[k]);
                    }
                }
                let ids = contours@[ci as int].hole_ids@;
                assert(ids.take(h as int + 1) =~= ids.take(h as int).push(hole_id));
                assert(poly_view(rings) =~= bv.push(contours@[hole_id as int].points@));
                assert(ids.take(h as int + 1).map_values(|x: usize| contours@[x as int].points@) =~= ids.take(h as int).map_values(
                    |x: usize| contours@[x as int].points@,
                ).push(contours@[hole_id as int].points@));
                assert(poly_view(rings) =~= seq![contours@[ci as int].points@] + ids.take(h as int + 1).map_values(
                    |x: usize| contours@[x as int].points@,
                ));
            }
            h = h + 1;
        }
        proof {
            let ids = contours@[ci as int].hole_ids@;
            assert(ids.take(h as int) =~= ids);
            assert(poly_view(rings) == contour_polygon(contours@, ci as int));
        }
        let ghost before = polygons;
        polygons.push(rings);
        proof {
            assert forall|p: int| 0 <= p < polygons@.len() implies (#[trigger] polygons@[p])@.len() >= 1 && forall|q: int|
                0 <= q < polygons@[p]@.len() ==> (#[trigger] polygons@[p]@[q])@.len() >= 2 by {
                if p < before@.len() {
                    assert(polygons@[p] == before@[p]);
                }
            }
            assert forall|p: int, q: int, k: int|
                0 <= p < polygons@.len() && 0 <= q < polygons@[p]@.len() && 0 <= k < polygons@[p]@[q]@.len()
                implies in_input_box(sv, cv, #[trigger] polygons@[p]@[q]@[k]) by {
                if p < before@.len() {
                    assert(polygons@[p] == before@[p]);
                }
            }
            assert(mp_view(polygons) =~= mp_view(before).push(poly_view(rings)));
        }
        ci = ci + 1;
    }
    proof {
        assert(contours_formed(contours@, sv, cv));
        assert(mp_view(polygons) == assembled(contours@, contours@.len() as int));
    }
    if operation == Operation::Intersection && polygons.len() == 0 {
        // an empty intersection
        return None;
    }
    Some(polygons)
}

/// Intersection of `subject` and `clipping`: the area covered by both.
/// `None` when the result is empty: an empty input, disjoint bounding
/// boxes, or a sweep that yields no polygon.
pub fn intersection(subject: Geometry, clipping: Geometry) -> (r: Option<MultiPolygon>)
    requires
        geometry_polygons(subject).len() + geometry_polygons(clipping).len() <= i32::MAX,
    ensures
        op_result(r, subject, clipping, Operation::Intersection),
{
    boolean_op(subject, clipping, Operation::Intersection)
}

/// Union of `subject` and `clipping`: the area covered by either.
pub fn union(subject: Geometry, clipping: Geometry) -> (r: Option<MultiPolygon>)
    requires
        geometry_polygons(subject).len() + geometry_polygons(clipping).len() <= i32::MAX,
    ensures
        op_result(r, subject, clipping, Operation::Union),
{
    boolean_op(subject, clipping, Operation::Union)
}

/// `subject` minus `clipping`: the area in `subject` but not in
/// `clipping`.
pub fn difference(subject: Geometry, clipping: Geometry) -> (r: Option<MultiPolygon>)
    requires
        geometry_polygons(subject).len() + geometry_polygons(clipping).len() <= i32::MAX,
    ensures
        op_result(r, subject, clipping, Operation::Difference),
{
    boolean_op(subject, clipping, Operation::Difference)
}

/// Symmetric difference of `subject` and `clipping`: the area in exactly
/// one of them.
pub fn xor(subject: Geometry, clipping: Geometry) -> (r: Option<MultiPolygon>)
    requires
        geometry_polygons(subject).len() + geometry_polygons(clipping).len() <= i32::MAX,
    ensures
        op_result(r, subject, clipping, Operation::Xor),
{
    boolean_op(subject, clipping, Operation::Xor)
}

} // verus!
