//! Point equality.
use crate::types::Position;
use vstd::prelude::*;

verus! {

/// Whether two positions are identical on both coordinates.
pub fn equals(p1: Position, p2: Position) -> (r: bool)
    ensures
        r <==> p1 == p2,
{
    proof {
        lemma_position_eq(p1, p2);
    }
    p1[0] == p2[0] && p1[1] == p2[1]
}

/// Two positions are equal exactly when both coordinates are.
pub proof fn lemma_position_eq(p1: Position, p2: Position)
    ensures
        (p1 == p2) <==> (p1[0] == p2[0] && p1[1] == p2[1]),
{
    broadcast use vstd::array::group_array_axioms;

    if p1[0] == p2[0] && p1[1] == p2[1] {
        assert(p1 =~= p2);
    }
}

} // verus!
