//! Which Boolean operation to perform.
use vstd::prelude::*;

verus! {

/// Which Boolean operation to perform.
#[derive(Debug, Clone, Copy, PartialEq, Eq, Structural)]
pub enum Operation {
    /// `subject ∩ clipping`
    Intersection,
    /// `subject ∪ clipping`
    Union,
    /// `subject \ clipping`
    Difference,
    /// `subject ⊕ clipping`
    Xor,
}

/// Whether a point lies in the result of the operation, given whether it
/// lies inside the subject and whether it lies inside the clipping.
pub open spec fn in_result_region(operation: Operation, in_subject: bool, in_clipping: bool) -> bool {
    match operation {
        Operation::Intersection => in_subject && in_clipping,
        Operation::Union => in_subject || in_clipping,
        Operation::Difference => in_subject && !in_clipping,
        Operation::Xor => in_subject != in_clipping,
    }
}

} // verus!
