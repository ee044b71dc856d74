use vstd::prelude::*;
use crate::grant::TransferKey;
use crate::ledger::{
    find_grant, find_transfer, grants_of, lemma_replace_grants, lemma_replace_transfers,
    pending_for,
};
use crate::model::{
    has_key, lemma_position_of_present, lemma_total_remove, lemma_total_update, position,
};
use crate::{grants_wf, owed_amounts, transfer_amounts, Contract, Grant, LedgerView, Name};

verus! {

/// How one transfer of a batch ended.
#[derive(Clone, Copy, Debug, PartialEq, Eq)]
pub enum TransferResult {
    Successful,
    Failed,
}

/// What a reconciliation asks of its caller: whether to unpause the ledger.
#[derive(Clone, Copy, Debug, PartialEq, Eq)]
pub struct Reconciliation {
    pub unpause: bool,
}

/// The keys by the text of the beneficiary's name.
pub open spec fn keys_view(keys: Seq<TransferKey>) -> Seq<(Name, u32)> {
    Seq::new(keys.len(), |i: int| (keys[i].account_id@, keys[i].issue_at))
}

impl LedgerView {
    /// The amount recorded as in flight for the beneficiary's grant; the
    /// first, should there be several.
    pub open spec fn in_flight_for(self, id: Name, issue_at: u32) -> u128 {
        let transfers = pending_for(self.pending_transfers, id);
        transfers[position(transfers, issue_at)].1
    }

    /// Whether a failed transfer for the beneficiary's grant can be undone:
    /// an amount is recorded as in flight for it, the grant exists, and the
    /// amount is part of what counts as claimed.
    pub open spec fn can_revert(self, id: Name, issue_at: u32) -> bool {
        let grants = grants_of(self.accounts, id);
        &&& has_key(self.pending_transfers, id)
        &&& has_key(pending_for(self.pending_transfers, id), issue_at)
        &&& has_key(self.accounts, id)
        &&& has_key(grants, issue_at)
        &&& self.in_flight_for(id, issue_at) <= grants[position(grants, issue_at)].1.claimed_amount
    }

    /// The ledger after a failed transfer was undone: the amount recorded as
    /// in flight goes back from what counts as claimed to the order, and its
    /// record is used up. Where it cannot be undone nothing changes.
    pub open spec fn revert(self, id: Name, issue_at: u32) -> LedgerView {
        if self.can_revert(id, issue_at) {
            let grants = grants_of(self.accounts, id);
            let transfers = pending_for(self.pending_transfers, id);
            let at = position(grants, issue_at);
            LedgerView {
                accounts: self.accounts.update(
                    position(self.accounts, id),
                    (
                        id,
                        grants.update(
                            at,
                            (issue_at, grants[at].1.reverted(self.in_flight_for(id, issue_at))),
                        ),
                    ),
                ),
                pending_transfers: self.pending_transfers.update(
                    position(self.pending_transfers, id),
                    (id, transfers.remove(position(transfers, issue_at))),
                ),
                ..self
            }
        } else {
            self
        }
    }

    /// The ledger after the failed transfers among the keys were undone, key
    /// by key, each with the result at its place.
    pub open spec fn revert_failed(self, keys: Seq<(Name, u32)>, results: Seq<TransferResult>)
        -> LedgerView
        decreases keys.len(),
    {
        if keys.len() == 0 {
            self
        } else {
            let earlier = self.revert_failed(keys.drop_last(), results.drop_last());
            if results.last() == TransferResult::Failed {
                earlier.revert(keys.last().0, keys.last().1)
            } else {
                earlier
            }
        }
    }

    /// The ledger after the reconciliation of a batch: the failed transfers
    /// are undone and nothing is in flight any more.
    pub open spec fn reconcile(self, keys: Seq<(Name, u32)>, results: Seq<TransferResult>)
        -> LedgerView {
        self.revert_failed(keys, results).without_pending()
    }
}

/// Undoing a failed transfer keeps the ledger well formed and its holdings,
/// and leaves the spare pool alone.
pub proof fn lemma_revert(ledger: LedgerView, id: Name, issue_at: u32)
    requires
        ledger.wf(),
    ensures
        ledger.revert(id, issue_at).wf(),
        ledger.revert(id, issue_at).holdings() == ledger.holdings(),
        ledger.revert(id, issue_at).spare_balance == ledger.spare_balance,
{
    if ledger.can_revert(id, issue_at) {
        let grants = grants_of(ledger.accounts, id);
        let transfers = pending_for(ledger.pending_transfers, id);
        lemma_position_of_present(ledger.accounts, id);
        lemma_position_of_present(ledger.pending_transfers, id);
        lemma_position_of_present(grants, issue_at);
        lemma_position_of_present(transfers, issue_at);
        let at = position(grants, issue_at);
        let place = position(transfers, issue_at);
        let amount = ledger.in_flight_for(id, issue_at);
        let restored = grants.update(at, (issue_at, grants[at].1.reverted(amount)));
        assert(grants_wf(ledger.accounts[position(ledger.accounts, id)].1, ledger.config));
        assert(grants[at].1.wf() && ledger.config.covers(grants[at].0));
        assert forall|i: int, j: int| 0 <= i < j < restored.len() implies (
        #[trigger] restored[i]).0 != (#[trigger] restored[j]).0 by {
            assert(grants[i].0 != grants[j].0);
        }
        assert forall|i: int| 0 <= i < restored.len() implies (#[trigger] restored[i]).1.wf()
            && ledger.config.covers(restored[i].0) by {
            assert(grants[i].1.wf() && ledger.config.covers(grants[i].0));
        }
        let owed = (grants[at].1.owed() + amount) as nat;
        assert(owed_amounts(restored) =~= owed_amounts(grants).update(at, owed));
        lemma_total_update(owed_amounts(grants), at, owed);
        lemma_replace_grants(
            ledger.accounts,
            position(ledger.accounts, id),
            restored,
            ledger.config,
        );
        assert(transfer_amounts(transfers.remove(place)) =~= transfer_amounts(transfers).remove(
            place,
        ));
        lemma_total_remove(transfer_amounts(transfers), place);
        lemma_replace_transfers(
            ledger.pending_transfers,
            position(ledger.pending_transfers, id),
            transfers.remove(place),
        );
    }
}

/// Undoing failed transfers keeps the ledger well formed and its holdings,
/// and leaves the spare pool alone.
pub proof fn lemma_revert_failed(
    ledger: LedgerView,
    keys: Seq<(Name, u32)>,
    results: Seq<TransferResult>,
)
    requires
        ledger.wf(),
        keys.len() == results.len(),
    ensures
        ledger.revert_failed(keys, results).wf(),
        ledger.revert_failed(keys, results).holdings() == ledger.holdings(),
        ledger.revert_failed(keys, results).spare_balance == ledger.spare_balance,
    decreases keys.len(),
{
    if keys.len() > 0 {
        lemma_revert_failed(ledger, keys.drop_last(), results.drop_last());
        lemma_revert(
            ledger.revert_failed(keys.drop_last(), results.drop_last()),
            keys.last().0,
            keys.last().1,
        );
    }
}

impl Contract {
    /// Undoes one failed transfer, if it can be undone.
    pub(crate) fn revert(&mut self, key: &TransferKey)
        requires
            old(self)@.wf(),
        ensures
            final(self)@ == old(self)@.revert(key.account_id@, key.issue_at),
            final(self)@.wf(),
    {
        proof {
            lemma_revert(self@, key.account_id@, key.issue_at);
        }
        let ghost before = self@;
        let ghost grants = grants_of(before.accounts, key.account_id@);
        let ghost transfers = pending_for(before.pending_transfers, key.account_id@);
        let pending_at = match self.find_pending(&key.account_id) {
            Some(at) => at,
            None => {
                return ;
            },
        };
        let place = match find_transfer(&self.pending_transfers[pending_at].1, key.issue_at) {
            Some(place) => place,
            None => {
                return ;
            },
        };
        let amount: u128 = self.pending_transfers[pending_at].1[place].1;
        let account_at = match self.find_account(&key.account_id) {
            Some(at) => at,
            None => {
                return ;
            },
        };
        let grant_at = match find_grant(&self.accounts[account_at].1.grants, key.issue_at) {
            Some(at) => at,
            None => {
                return ;
            },
        };
        if amount > self.accounts[account_at].1.grants[grant_at].1.claimed_amount {
            return ;
        }
        proof {
            assert(grants_wf(before.accounts[account_at as int].1, before.config));
            assert(grants[grant_at as int].1.wf());
        }
        let mut grant: Grant = self.accounts[account_at].1.grants[grant_at].1;
        grant.claimed_amount = grant.claimed_amount - amount;
        grant.order_amount = grant.order_amount + amount;
        self.accounts[account_at].1.grants[grant_at] = (key.issue_at, grant);
        self.pending_transfers[pending_at].1.remove(place);
        proof {
            assert(grant == grants[grant_at as int].1.reverted(amount));
            assert(self.accounts@[account_at as int].1.grants@ =~= grants.update(
                grant_at as int,
                (key.issue_at, grant),
            ));
            assert(self@.accounts =~= before.accounts.update(
                account_at as int,
                (
                    key.account_id@,
                    grants.update(
                        grant_at as int,
                        (key.issue_at, grants[grant_at as int].1.reverted(amount)),
                    ),
                ),
            ));
            assert(self@.pending_transfers =~= before.pending_transfers.update(
                pending_at as int,
                (key.account_id@, transfers.remove(place as int)),
            ));
        }
    }
}

} // verus!
