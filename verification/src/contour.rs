//! Output contours.
use crate::types::Position;
use vstd::prelude::*;

verus! {

/// One closed contour of the output, with its place in the hole
/// hierarchy.
#[derive(Debug, Clone)]
pub struct Contour {
    /// The contour's points, in walking order.
    pub points: Vec<Position>,
    /// Indices of the contours that are holes of this one.
    pub hole_ids: Vec<usize>,
    /// The contour this one is a hole of, if any.
    pub hole_of: Option<usize>,
    /// Nesting depth.
    pub depth: i32,
}

impl Contour {
    /// An empty exterior contour at depth `0`.
    pub fn new() -> (c: Self)
        ensures
            c.points@ == Seq::<Position>::empty(),
            c.hole_ids@ == Seq::<usize>::empty(),
            c.hole_of is None,
            c.depth == 0,
    {
        Contour { points: Vec::new(), hole_ids: Vec::new(), hole_of: None, depth: 0 }
    }

    /// Whether the contour is an exterior ring (not a hole of another).
    pub fn is_exterior(&self) -> (r: bool)
        ensures
            r == (self.hole_of is None),
    {
        self.hole_of.is_none()
    }
}

} // verus!
