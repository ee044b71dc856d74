use vstd::prelude::*;
use crate::auth::Role;

verus! {

/// Why an operation of the ledger was refused. A refused operation leaves
/// the ledger as it was.
#[derive(Clone, Copy, Debug, PartialEq, Eq)]
pub enum LedgerError {
    /// The caller does not hold the role that the operation asks for.
    Unauthorized(Role),
    /// The ledger is paused and the operation needs it running.
    Paused,
    /// The ledger is running and the operation needs it paused.
    NotPaused,
    /// The spare balance does not cover the grants to issue.
    InsufficientSpareBalance,
    /// The beneficiary already has a grant issued at that second.
    DuplicateGrant,
    /// The gas left does not cover the batch of transfers and its callback.
    NotEnoughGas,
    /// The amount received differs from the amount that the message calls for.
    AmountMismatch,
}

} // verus!
