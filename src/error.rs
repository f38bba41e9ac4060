use vstd::prelude::*;

verus! {

/// Why an operation on a resource table or on the arbiter was refused.
///
/// Every refusal leaves the state it was asked of unchanged.
#[derive(Clone, Copy, Debug, PartialEq, Eq, Structural)]
pub enum BankError {
    /// Shapes disagree: an empty or ragged table, or vectors and tables whose
    /// sizes do not match.
    DimensionMismatch,
    /// A row, column or process index outside the declared bounds.
    IndexOutOfRange,
    /// A quantity that breaks the state's invariants: a negative amount, an
    /// allocation above its claim, or a resource total beyond the `i32` range.
    InvalidQuantity,
    /// A request that exceeds the process's remaining need.
    ClaimExceeded,
    /// A request that exceeds the units currently available.
    InsufficientResources,
    /// A request that would leave the system in an unsafe state.
    UnsafeAllocation,
}

} // verus!
