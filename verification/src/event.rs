use vstd::prelude::*;

verus! {

/// What the ledger reports to its observers.
#[derive(Debug, PartialEq, Eq)]
pub enum LtipEvent {
    /// The orders that a claim looked at, after the claim.
    OrderUpdate(Vec<OrderUpdateData>),
    /// The grants of an account that were terminated, with what each gave back.
    Terminate((String, Vec<(u32, u128)>)),
}

/// The order amount of the grant issued at `issue_at`.
#[derive(Clone, Copy, Debug, PartialEq, Eq)]
pub struct OrderUpdateData {
    pub issue_at: u32,
    pub amount: u128,
}

} // verus!
