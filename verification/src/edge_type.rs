//! Classification of segment edges.
use vstd::prelude::*;

verus! {

/// How a sweep-event segment behaves relative to the result polygon.
#[derive(Debug, Clone, Copy, PartialEq, Eq, Structural)]
pub enum EdgeType {
    Normal,
    NonContributing,
    SameTransition,
    DifferentTransition,
}

} // verus!
