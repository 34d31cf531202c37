//! Coordinate types in GeoJSON shape, on the integer lattice.
use vstd::prelude::*;

verus! {

/// `[x, y]` lattice coordinate.
pub type Position = [i32; 2];

/// Closed ring of positions. By GeoJSON convention the first and last
/// positions are equal.
pub type Ring = Vec<Position>;

/// Polygon: exterior ring followed by zero or more hole rings.
pub type Polygon = Vec<Ring>;

/// Collection of polygons.
pub type MultiPolygon = Vec<Polygon>;

/// Axis-aligned bounding box: `[min_x, min_y, max_x, max_y]`. Wider than
/// a coordinate, so that an empty box (mins above and maxes below every
/// lattice coordinate) can be written.
pub type BBox = [i64; 4];

/// GeoJSON-shaped input to the four Boolean operations: either a single
/// polygon or a collection of polygons.
#[derive(Debug, Clone, PartialEq)]
pub enum Geometry {
    /// A single polygon (exterior + optional holes).
    Polygon(Polygon),
    /// A collection of polygons.
    MultiPolygon(MultiPolygon),
}

/// The multipolygon a geometry stands for: a polygon is a one-element
/// collection.
pub open spec fn geometry_polygons(g: Geometry) -> Seq<Polygon> {
    match g {
        Geometry::Polygon(p) => seq![p],
        Geometry::MultiPolygon(mp) => mp@,
    }
}

impl Geometry {
    /// Normalize either variant to a `MultiPolygon`.
    pub fn into_multi(self) -> (mp: MultiPolygon)
        ensures
            mp@ == geometry_polygons(self),
    {
        match self {
            Geometry::Polygon(p) => {
                let mut v: MultiPolygon = Vec::new();
                v.push(p);
                v
            },
            Geometry::MultiPolygon(mp) => mp,
        }
    }
}

impl From<Polygon> for Geometry {
    fn from(p: Polygon) -> (g: Self) {
        Geometry::Polygon(p)
    }
}

impl vstd::std_specs::convert::FromSpecImpl<Polygon> for Geometry {
    open spec fn obeys_from_spec() -> bool {
        true
    }

    open spec fn from_spec(p: Polygon) -> Self {
        Geometry::Polygon(p)
    }
}

impl From<MultiPolygon> for Geometry {
    fn from(mp: MultiPolygon) -> (g: Self) {
        Geometry::MultiPolygon(mp)
    }
}

impl vstd::std_specs::convert::FromSpecImpl<MultiPolygon> for Geometry {
    open spec fn obeys_from_spec() -> bool {
        true
    }

    open spec fn from_spec(mp: MultiPolygon) -> Self {
        Geometry::MultiPolygon(mp)
    }
}

} // verus!
