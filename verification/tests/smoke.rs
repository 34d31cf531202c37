//! The public types and their conversions.
use polyops::{Geometry, Polygon};

#[test]
fn public_types_compile() {
    let polygon: Polygon = vec![vec![[0, 0], [1, 0], [1, 1], [0, 0]]];
    let _geom: Geometry = polygon.clone().into();
    let _multi: Geometry = vec![polygon].into();
}

#[test]
fn into_multi_wraps_a_single_polygon() {
    let polygon: Polygon = vec![vec![[0, 0], [10, 0], [10, 10], [0, 0]]];
    let g: Geometry = polygon.clone().into();
    assert_eq!(g.into_multi(), vec![polygon.clone()]);
    let m: Geometry = vec![polygon.clone(), polygon.clone()].into();
    assert_eq!(m.into_multi().len(), 2);
}
