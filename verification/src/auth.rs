use vstd::prelude::*;

verus! {

/// What a principal may be allowed to do on the ledger.
#[derive(Clone, Copy, Debug, PartialEq, Eq, Structural)]
pub enum Role {
    Issuer,
    Executor,
    Predecessor,
}

} // verus!
