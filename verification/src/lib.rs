//! # PolyOps
//!
//! Boolean operations on polygons (intersection, union, difference and
//! symmetric difference) with the Martinez-Rueda-Feito sweep-line
//! algorithm, on polygons whose vertices lie on the integer lattice.
//!
//! Coordinates are `i32`, so every geometric predicate (orientation,
//! collinearity, lexicographic order) is evaluated exactly. Inputs are
//! GeoJSON-shaped coordinate arrays: a `Polygon` (`Vec<Ring>`) or a
//! `MultiPolygon` (`Vec<Polygon>`), through the [`Geometry`] enum.
//!
//! Layout, leaves first: points and orientation (`equals`,
//! `signed_area`), sweep events and their orders (`sweep_event`,
//! `compare_events`, `compare_segments`), the event queue and the sweep
//! line, segment intersection and subdivision, per-event classification
//! (`compute_fields`), queue filling, the sweep itself
//! (`subdivide_segments`, with its termination argument in
//! `segment_weight` and `split_progress`), contour stitching
//! (`connect_edges`) and the four operations (`boolean_op`).
pub mod operation;
pub mod types;
pub mod edge_type;
pub mod equals;
pub mod signed_area;
pub mod sweep_event;
pub mod compare_events;
pub mod compare_segments;
pub mod event_queue;
pub mod sweep_line;
pub mod segment_intersection;
pub mod divide_segment;
pub mod compute_fields;
pub mod fill_queue;
pub mod possible_intersection;
pub mod segment_weight;
pub mod split_progress;
pub mod subdivide_segments;
pub mod contour;
pub mod connect_edges;
pub mod boolean_op;

pub use crate::boolean_op::{difference, intersection, union, xor};
pub use crate::operation::Operation;
pub use crate::types::{BBox, Geometry, MultiPolygon, Polygon, Position, Ring};
