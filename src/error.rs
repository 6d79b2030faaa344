use vstd::prelude::*;

verus! {

/// The ways an operation of this library can fail.
#[derive(Debug, Clone, Copy, PartialEq, Eq, Structural)]
pub enum GraphError {
    /// A size or probability parameter lies outside its allowed range.
    Domain,
    /// A node count does not fit the 32-bit node index range.
    Size,
    /// A node index is out of bounds, or both endpoints of an edge are equal.
    Index,
    /// Two matrices have different dimensions.
    Shape,
    /// The graph is too large for the graph6 single-byte size prefix.
    EncodingRange,
    /// An exact-arithmetic step overflowed or an exact division was not exact.
    ArithmeticInvariant,
    /// The requested storage is larger than can be laid out in memory.
    Allocation,
    /// The generator ran out of steps before every degree was within bound.
    StepLimit,
}

} // verus!
