//! The four Boolean operations end to end.
use polyops::{difference, intersection, union, xor, Geometry, MultiPolygon, Polygon};

fn square(x0: i32, y0: i32, x1: i32, y1: i32) -> Polygon {
    vec![vec![[x0, y0], [x1, y0], [x1, y1], [x0, y1], [x0, y0]]]
}

fn ring_has(mp: &MultiPolygon, pts: &[[i32; 2]]) -> bool {
    pts.iter().all(|q| mp.iter().any(|poly| poly.iter().any(|ring| ring.contains(q))))
}

fn all_points_within(mp: &MultiPolygon, x0: i32, y0: i32, x1: i32, y1: i32) -> bool {
    mp.iter()
        .all(|poly| poly.iter().all(|ring| ring.iter().all(|q| x0 <= q[0] && q[0] <= x1 && y0 <= q[1] && q[1] <= y1)))
}

#[test]
fn union_of_overlapping_squares_is_one_polygon() {
    let r = union(Geometry::Polygon(square(0, 0, 20, 20)), Geometry::Polygon(square(10, 10, 30, 30))).unwrap();
    assert_eq!(r.len(), 1);
    assert_eq!(r[0].len(), 1);
    assert!(ring_has(&r, &[[0, 0], [20, 0], [20, 10], [30, 10], [30, 30], [10, 30], [10, 20], [0, 20]]));
    assert!(all_points_within(&r, 0, 0, 30, 30));
}

#[test]
fn intersection_of_overlapping_squares_is_the_overlap() {
    let r = intersection(Geometry::Polygon(square(0, 0, 20, 20)), Geometry::Polygon(square(10, 10, 30, 30)))
        .unwrap();
    assert_eq!(r.len(), 1);
    assert!(ring_has(&r, &[[10, 10], [20, 10], [20, 20], [10, 20]]));
    assert!(all_points_within(&r, 10, 10, 20, 20));
}

#[test]
fn difference_of_overlapping_squares_keeps_the_l_shape() {
    let r = difference(Geometry::Polygon(square(0, 0, 20, 20)), Geometry::Polygon(square(10, 10, 30, 30)))
        .unwrap();
    assert_eq!(r.len(), 1);
    assert!(ring_has(&r, &[[0, 0], [20, 0], [20, 10], [10, 10], [10, 20], [0, 20]]));
    assert!(all_points_within(&r, 0, 0, 20, 20));
}

#[test]
fn xor_of_overlapping_squares_is_not_empty() {
    let r = xor(Geometry::Polygon(square(0, 0, 20, 20)), Geometry::Polygon(square(10, 10, 30, 30))).unwrap();
    assert!(!r.is_empty());
    assert!(ring_has(&r, &[[0, 0], [30, 30]]));
}

#[test]
fn intersection_of_disjoint_squares_is_none() {
    let r = intersection(Geometry::Polygon(square(0, 0, 10, 10)), Geometry::Polygon(square(50, 0, 60, 10)));
    assert!(r.is_none());
}

#[test]
fn union_of_disjoint_squares_is_both_inputs() {
    let a = square(0, 0, 10, 10);
    let b = square(50, 0, 60, 10);
    let r = union(Geometry::Polygon(a.clone()), Geometry::Polygon(b.clone())).unwrap();
    assert_eq!(r, vec![a.clone(), b.clone()]);
    let x = xor(Geometry::Polygon(a.clone()), Geometry::Polygon(b.clone())).unwrap();
    assert_eq!(x, vec![a.clone(), b.clone()]);
    let d = difference(Geometry::Polygon(a.clone()), Geometry::Polygon(b)).unwrap();
    assert_eq!(d, vec![a]);
}

#[test]
fn empty_inputs_short_circuit() {
    let a = square(0, 0, 10, 10);
    let empty = Geometry::MultiPolygon(vec![]);
    assert!(intersection(Geometry::Polygon(a.clone()), empty.clone()).is_none());
    assert_eq!(union(empty.clone(), Geometry::Polygon(a.clone())), Some(vec![a.clone()]));
    assert_eq!(union(Geometry::Polygon(a.clone()), empty.clone()), Some(vec![a.clone()]));
    assert_eq!(xor(empty.clone(), Geometry::Polygon(a.clone())), Some(vec![a.clone()]));
    assert_eq!(difference(Geometry::Polygon(a.clone()), empty.clone()), Some(vec![a.clone()]));
    assert_eq!(difference(empty.clone(), Geometry::Polygon(a)), Some(vec![]));
}

#[test]
fn every_ring_of_a_result_has_two_points_or_more() {
    let r = union(
        Geometry::MultiPolygon(vec![square(0, 0, 20, 20), square(40, 0, 60, 20)]),
        Geometry::Polygon(square(10, 5, 50, 15)),
    )
    .unwrap();
    assert!(!r.is_empty());
    for poly in &r {
        assert!(!poly.is_empty());
        for ring in poly {
            assert!(ring.len() >= 2);
        }
    }
}

#[test]
fn difference_with_an_inner_square_leaves_a_hole() {
    let r = difference(Geometry::Polygon(square(0, 0, 40, 40)), Geometry::Polygon(square(10, 10, 20, 20)))
        .unwrap();
    assert_eq!(r.len(), 1);
    assert_eq!(r[0].len(), 2);
    assert!(r[0][0].contains(&[0, 0]) && r[0][0].contains(&[40, 40]));
    assert!(r[0][1].contains(&[10, 10]) && r[0][1].contains(&[20, 20]));
}

#[test]
fn result_rings_of_overlapping_squares_are_closed() {
    let r = union(Geometry::Polygon(square(0, 0, 20, 20)), Geometry::Polygon(square(10, 10, 30, 30))).unwrap();
    for poly in &r {
        for ring in poly {
            assert_eq!(ring[0], ring[ring.len() - 1]);
        }
    }
}

#[test]
fn intersection_of_area_disjoint_shapes_with_overlapping_boxes_is_none() {
    let tri = vec![vec![[0, 0], [40, 0], [0, 40], [0, 0]]];
    let r = intersection(Geometry::Polygon(tri), Geometry::Polygon(square(30, 30, 40, 40)));
    assert!(r.is_none());
}

#[test]
fn difference_with_two_inner_squares_uses_each_contour_once() {
    let outer = square(0, 0, 40, 40);
    let holes = vec![square(10, 10, 20, 20), square(25, 25, 35, 35)];
    let r = difference(Geometry::Polygon(outer), Geometry::MultiPolygon(holes)).unwrap();
    assert_eq!(r.len(), 1);
    assert_eq!(r[0].len(), 3);
    assert!(r[0][0].contains(&[0, 0]) && r[0][0].contains(&[40, 40]));
    assert!(r[0][1] != r[0][2]);
    assert!(r[0].iter().any(|ring| ring.contains(&[10, 10])));
    assert!(r[0].iter().any(|ring| ring.contains(&[35, 35])));
}
