use vstd::prelude::*;
use crate::ledger::lemma_nothing_in_flight;
use crate::{outstanding_amounts, Config, Contract, Grants, LedgerView, Name, Transfers};

verus! {

impl LedgerView {
    /// A ledger for the token without accounts, funds or transfers.
    pub open spec fn empty(token_id: Name, config: Config) -> LedgerView {
        LedgerView {
            token_id,
            accounts: Seq::empty(),
            config,
            spare_balance: 0,
            pending_transfers: Seq::empty(),
        }
    }
}

/// A ledger that holds nothing is well formed and answers for nothing.
pub proof fn lemma_empty_ledger(token_id: Name, config: Config)
    ensures
        LedgerView::empty(token_id, config).wf(),
        LedgerView::empty(token_id, config).holdings() == 0,
{
    lemma_nothing_in_flight();
    assert(outstanding_amounts(Seq::<(Name, Grants)>::empty()) =~= Seq::<nat>::empty());
}

/// The creation of a ledger.
pub trait InitApi {
    /// Creates a ledger for the token with the two durations, in seconds,
    /// that shape its grants.
    fn new(token_id: String, cliff_duration: u32, vesting_duration: u32) -> (contract: Contract)
        ensures
            contract@ == LedgerView::empty(token_id@, Config { cliff_duration, vesting_duration }),
            contract@.wf(),
    ;
}

impl InitApi for Contract {
    fn new(token_id: String, cliff_duration: u32, vesting_duration: u32) -> (contract: Contract) {
        let contract = Contract {
            token_id,
            accounts: Vec::new(),
            config: Config { cliff_duration, vesting_duration },
            spare_balance: 0,
            pending_transfers: Vec::new(),
        };
        proof {
            lemma_empty_ledger(contract.token_id@, contract.config);
            assert(contract@.accounts =~= Seq::empty());
            assert(contract@.pending_transfers =~= Seq::<(Name, Transfers)>::empty());
        }
        contract
    }
}

} // verus!
