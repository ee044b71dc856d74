use vstd::prelude::*;
use crate::account::{
    all_can_terminate, grants_terminable, lemma_terminate_grants, recovered_in, terminate_grants,
};
use crate::ledger::{grants_of, lemma_replace_grants, pending_for};
use crate::model::{has_key, lemma_position_of_present, position};
use crate::{grants_wf, Contract, LedgerView, Name};

verus! {

impl LedgerView {
    /// Whether every grant of the beneficiary can be terminated at `now`.
    pub open spec fn can_terminate(self, id: Name, now: u32, terminate_at: u32) -> bool {
        all_can_terminate(grants_of(self.accounts, id), self.config, now, terminate_at)
    }

    /// The ledger after the termination of a beneficiary's grants at `now`,
    /// with effect at `terminate_at`: the orders without a transfer in flight
    /// are declined, every grant is terminated, and what the grants give back
    /// goes to the spare pool.
    pub open spec fn terminate(self, id: Name, now: u32, terminate_at: u32) -> LedgerView {
        if has_key(self.accounts, id) {
            let grants = grants_of(self.accounts, id);
            let pending = pending_for(self.pending_transfers, id);
            LedgerView {
                accounts: self.accounts.update(
                    position(self.accounts, id),
                    (id, terminate_grants(grants, pending, self.config, now, terminate_at)),
                ),
                spare_balance: (self.spare_balance + recovered_in(
                    grants,
                    pending,
                    self.config,
                    now,
                    terminate_at,
                )) as u128,
                ..self
            }
        } else {
            self
        }
    }
}

/// A termination keeps the ledger well formed and its holdings, and takes
/// nothing from the spare pool.
pub proof fn lemma_terminate(ledger: LedgerView, id: Name, now: u32, terminate_at: u32)
    requires
        ledger.wf(),
    ensures
        ledger.terminate(id, now, terminate_at).wf(),
        ledger.terminate(id, now, terminate_at).holdings() == ledger.holdings(),
        ledger.terminate(id, now, terminate_at).spare_balance >= ledger.spare_balance,
        has_key(ledger.accounts, id) ==> ledger.spare_balance + recovered_in(
            grants_of(ledger.accounts, id),
            pending_for(ledger.pending_transfers, id),
            ledger.config,
            now,
            terminate_at,
        ) <= u128::MAX,
{
    if has_key(ledger.accounts, id) {
        let grants = grants_of(ledger.accounts, id);
        let pending = pending_for(ledger.pending_transfers, id);
        lemma_position_of_present(ledger.accounts, id);
        let at = position(ledger.accounts, id);
        assert(grants_wf(ledger.accounts[at].1, ledger.config));
        lemma_terminate_grants(grants, pending, ledger.config, now, terminate_at);
        lemma_replace_grants(
            ledger.accounts,
            at,
            terminate_grants(grants, pending, ledger.config, now, terminate_at),
            ledger.config,
        );
    }
}

impl Contract {
    /// Whether `terminate` may be called for the beneficiary at `now`.
    pub fn is_terminable(&self, account_id: &String, now: u32, timestamp: u32) -> (ok: bool)
        requires
            self@.wf(),
        ensures
            ok == self@.can_terminate(account_id@, now, timestamp),
    {
        match self.find_account(account_id) {
            None => true,
            Some(index) => {
                assert(grants_wf(self@.accounts[index as int].1, self@.config));
                grants_terminable(&self.accounts[index].1.grants, &self.config, now, timestamp)
            },
        }
    }
}

} // verus!
