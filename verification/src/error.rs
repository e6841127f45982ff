use vstd::prelude::*;

verus! {

/// Why an operation on an interval tree was refused.
#[derive(Clone, Copy, Debug, PartialEq, Eq, Structural)]
pub enum IntervalError {
    /// The requested position lies outside the sequence that the tree covers.
    PositionOutOfRange,
    /// The tree does not satisfy its structural invariants.
    ViolatedInvariant,
}

} // verus!
