//! Cost entries and the errors of the solver.

use vstd::prelude::*;

verus! {

/// Why a solve failed.
#[derive(Debug, Clone, Copy, PartialEq, Eq, Structural)]
pub enum LSAPError {
    /// Some entry of the cost matrix is not a finite number.
    Invalid,
    /// Some row has no augmenting path to a free column.
    Infeasible,
}

/// One entry of a cost matrix: an exact integer, or one of the values that
/// no assignment can be computed with.
#[derive(Debug, Clone, Copy, PartialEq, Eq, Structural)]
pub enum Cost {
    /// A finite number.
    Finite(i64),
    /// Greater than every number.
    PosInfinity,
    /// Less than every number.
    NegInfinity,
    /// Not a number.
    NaN,
}

impl Cost {
    /// The number that a finite entry holds.
    pub open spec fn value(self) -> int {
        match self {
            Cost::Finite(x) => x as int,
            _ => 0,
        }
    }

    /// Whether the entry is a finite number.
    pub fn is_finite(self) -> (r: bool)
        ensures
            r == (self is Finite),
    {
        match self {
            Cost::Finite(_) => true,
            _ => false,
        }
    }
}

} // verus!
