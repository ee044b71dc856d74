use vstd::prelude::*;
use crate::account::{
    buy_grants, buy_orders, bought_in, claim_events, claim_grants, decline_grant_orders,
    decline_grants, lemma_buy_grants, lemma_claim_grants, lemma_decline_grants, BASIS_POINTS,
};
use crate::event::LtipEvent;
use crate::ledger::{grants_of, lemma_add_account, lemma_replace_grants, pending_for};
use crate::model::{has_key, lemma_position_of_present, position, with_value};
use crate::{grants_wf, names_view, owed_amounts, Contract, LedgerView, Name};

verus! {

impl LedgerView {
    /// The ledger after a claim by `caller` at `now`: the caller's grants
    /// are claimed up, in an account that is opened if the caller had none.
    pub open spec fn claim(self, caller: Name, now: u32) -> LedgerView {
        let grants = grants_of(self.accounts, caller);
        let pending = pending_for(self.pending_transfers, caller);
        LedgerView {
            accounts: with_value(
                self.accounts,
                caller,
                claim_grants(grants, pending, self.config, now),
            ),
            ..self
        }
    }

    /// What a claim by `caller` at `now` reports: nothing where the caller
    /// has no grants, and otherwise the orders it looked at.
    pub open spec fn claim_reports(self, caller: Name, now: u32, report: Option<LtipEvent>) -> bool {
        let grants = grants_of(self.accounts, caller);
        let pending = pending_for(self.pending_transfers, caller);
        if grants.len() == 0 {
            report is None
        } else {
            match report {
                Some(LtipEvent::OrderUpdate(data)) => data@ == claim_events(
                    grants,
                    pending,
                    self.config,
                    now,
                ),
                _ => false,
            }
        }
    }

    /// The ledger after the buyback of one beneficiary's orders: what is
    /// settled counts as claimed and goes to the spare pool.
    pub open spec fn buy_from(self, id: Name, percentage: u32) -> LedgerView {
        if has_key(self.accounts, id) {
            let grants = grants_of(self.accounts, id);
            let pending = pending_for(self.pending_transfers, id);
            LedgerView {
                accounts: self.accounts.update(
                    position(self.accounts, id),
                    (id, buy_grants(grants, pending, percentage)),
                ),
                spare_balance: (self.spare_balance + bought_in(grants, pending, percentage)) as u128,
                ..self
            }
        } else {
            self
        }
    }

    /// The ledger after the buyback of the beneficiaries' orders, one
    /// beneficiary after the other.
    pub open spec fn buy_all(self, ids: Seq<Name>, percentage: u32) -> LedgerView
        decreases ids.len(),
    {
        if ids.len() == 0 {
            self
        } else {
            self.buy_all(ids.drop_last(), percentage).buy_from(ids.last(), percentage)
        }
    }

    /// The ledger after one beneficiary's orders were declined.
    pub open spec fn decline_from(self, id: Name) -> LedgerView {
        if has_key(self.accounts, id) {
            let grants = grants_of(self.accounts, id);
            let pending = pending_for(self.pending_transfers, id);
            LedgerView {
                accounts: self.accounts.update(
                    position(self.accounts, id),
                    (id, decline_grants(grants, pending)),
                ),
                ..self
            }
        } else {
            self
        }
    }

    /// The ledger after the beneficiaries' orders were declined.
    pub open spec fn decline_all(self, ids: Seq<Name>) -> LedgerView
        decreases ids.len(),
    {
        if ids.len() == 0 {
            self
        } else {
            self.decline_all(ids.drop_last()).decline_from(ids.last())
        }
    }

    /// The ledger after a buyback: with no basis points the orders are
    /// declined, otherwise they are bought.
    pub open spec fn buy(self, ids: Seq<Name>, percentage: u32) -> LedgerView {
        if percentage == 0 {
            self.decline_all(ids)
        } else {
            self.buy_all(ids, percentage)
        }
    }
}

/// A claim keeps the ledger well formed and moves no funds.
pub proof fn lemma_claim(ledger: LedgerView, caller: Name, now: u32)
    requires
        ledger.wf(),
    ensures
        ledger.claim(caller, now).wf(),
        ledger.claim(caller, now).holdings() == ledger.holdings(),
        ledger.claim(caller, now).spare_balance == ledger.spare_balance,
{
    let grants = grants_of(ledger.accounts, caller);
    let pending = pending_for(ledger.pending_transfers, caller);
    let claimed = claim_grants(grants, pending, ledger.config, now);
    if has_key(ledger.accounts, caller) {
        lemma_position_of_present(ledger.accounts, caller);
        let at = position(ledger.accounts, caller);
        assert(grants_wf(ledger.accounts[at].1, ledger.config));
        lemma_claim_grants(grants, pending, ledger.config, now);
        lemma_replace_grants(ledger.accounts, at, claimed, ledger.config);
    } else {
        assert(claimed =~= Seq::empty());
        assert(owed_amounts(claimed) =~= Seq::empty());
        lemma_add_account(ledger.accounts, caller, claimed, ledger.config);
    }
}

/// The buyback of one beneficiary's orders keeps the ledger well formed and
/// its holdings, and takes nothing from the spare pool.
pub proof fn lemma_buy_from(ledger: LedgerView, id: Name, percentage: u32)
    requires
        ledger.wf(),
        percentage <= BASIS_POINTS,
    ensures
        ledger.buy_from(id, percentage).wf(),
        ledger.buy_from(id, percentage).holdings() == ledger.holdings(),
        ledger.buy_from(id, percentage).spare_balance >= ledger.spare_balance,
        has_key(ledger.accounts, id) ==> ledger.spare_balance + bought_in(
            grants_of(ledger.accounts, id),
            pending_for(ledger.pending_transfers, id),
            percentage,
        ) <= u128::MAX,
{
    if has_key(ledger.accounts, id) {
        let grants = grants_of(ledger.accounts, id);
        let pending = pending_for(ledger.pending_transfers, id);
        lemma_position_of_present(ledger.accounts, id);
        let at = position(ledger.accounts, id);
        assert(grants_wf(ledger.accounts[at].1, ledger.config));
        lemma_buy_grants(grants, pending, percentage, ledger.config);
        lemma_replace_grants(
            ledger.accounts,
            at,
            buy_grants(grants, pending, percentage),
            ledger.config,
        );
    }
}

/// A buyback keeps the ledger well formed and its holdings.
pub proof fn lemma_buy_all(ledger: LedgerView, ids: Seq<Name>, percentage: u32)
    requires
        ledger.wf(),
        percentage <= BASIS_POINTS,
    ensures
        ledger.buy_all(ids, percentage).wf(),
        ledger.buy_all(ids, percentage).holdings() == ledger.holdings(),
        ledger.buy_all(ids, percentage).spare_balance >= ledger.spare_balance,
    decreases ids.len(),
{
    if ids.len() > 0 {
        lemma_buy_all(ledger, ids.drop_last(), percentage);
        lemma_buy_from(ledger.buy_all(ids.drop_last(), percentage), ids.last(), percentage);
    }
}

/// Declining one beneficiary's orders keeps the ledger well formed and moves
/// no funds.
pub proof fn lemma_decline_from(ledger: LedgerView, id: Name)
    requires
        ledger.wf(),
    ensures
        ledger.decline_from(id).wf(),
        ledger.decline_from(id).holdings() == ledger.holdings(),
        ledger.decline_from(id).spare_balance == ledger.spare_balance,
{
    if has_key(ledger.accounts, id) {
        let grants = grants_of(ledger.accounts, id);
        let pending = pending_for(ledger.pending_transfers, id);
        lemma_position_of_present(ledger.accounts, id);
        let at = position(ledger.accounts, id);
        assert(grants_wf(ledger.accounts[at].1, ledger.config));
        lemma_decline_grants(grants, pending, ledger.config);
        lemma_replace_grants(ledger.accounts, at, decline_grants(grants, pending), ledger.config);
    }
}

/// Declining orders keeps the ledger well formed and moves no funds.
pub proof fn lemma_decline_all(ledger: LedgerView, ids: Seq<Name>)
    requires
        ledger.wf(),
    ensures
        ledger.decline_all(ids).wf(),
        ledger.decline_all(ids).holdings() == ledger.holdings(),
        ledger.decline_all(ids).spare_balance == ledger.spare_balance,
    decreases ids.len(),
{
    if ids.len() > 0 {
        lemma_decline_all(ledger, ids.drop_last());
        lemma_decline_from(ledger.decline_all(ids.drop_last()), ids.last());
    }
}

impl Contract {
    /// Buys back the orders of one beneficiary.
    pub(crate) fn buy_from(&mut self, account_id: &String, percentage: u32)
        requires
            old(self)@.wf(),
            percentage <= BASIS_POINTS,
        ensures
            final(self)@ == old(self)@.buy_from(account_id@, percentage),
            final(self)@.wf(),
    {
        proof {
            lemma_buy_from(self@, account_id@, percentage);
        }
        let ghost before = self@;
        let ghost grants = grants_of(before.accounts, account_id@);
        let ghost pending = pending_for(before.pending_transfers, account_id@);
        match self.find_account(account_id) {
            None => {},
            Some(index) => {
                proof {
                    assert(grants_wf(before.accounts[index as int].1, before.config));
                    lemma_replace_grants(before.accounts, index as int, grants, before.config);
                }
                let bought: u128 = match self.find_pending(account_id) {
                    Some(at) => buy_orders(
                        &mut self.accounts[index].1.grants,
                        &self.pending_transfers[at].1,
                        percentage,
                    ),
                    None => {
                        let none: Vec<(u32, u128)> = Vec::new();
                        buy_orders(&mut self.accounts[index].1.grants, &none, percentage)
                    },
                };
                self.spare_balance = self.spare_balance + bought;
                proof {
                    assert(self@.accounts =~= before.accounts.update(
                        index as int,
                        (account_id@, buy_grants(grants, pending, percentage)),
                    ));
                    assert(self@.pending_transfers =~= before.pending_transfers);
                }
            },
        }
    }

    /// Declines the orders of one beneficiary.
    pub(crate) fn decline_from(&mut self, account_id: &String)
        requires
            old(self)@.wf(),
        ensures
            final(self)@ == old(self)@.decline_from(account_id@),
            final(self)@.wf(),
    {
        proof {
            lemma_decline_from(self@, account_id@);
        }
        let ghost before = self@;
        let ghost grants = grants_of(before.accounts, account_id@);
        let ghost pending = pending_for(before.pending_transfers, account_id@);
        match self.find_account(account_id) {
            None => {},
            Some(index) => {
                match self.find_pending(account_id) {
                    Some(at) => decline_grant_orders(
                        &mut self.accounts[index].1.grants,
                        &self.pending_transfers[at].1,
                    ),
                    None => {
                        let none: Vec<(u32, u128)> = Vec::new();
                        decline_grant_orders(&mut self.accounts[index].1.grants, &none)
                    },
                };
                proof {
                    assert(self@.accounts =~= before.accounts.update(
                        index as int,
                        (account_id@, decline_grants(grants, pending)),
                    ));
                    assert(self@.pending_transfers =~= before.pending_transfers);
                }
            },
        }
    }

    /// Drops the orders of the beneficiaries, but for the grants with a
    /// transfer in flight: those must last until the transfer is reconciled.
    pub fn decline_orders(&mut self, account_ids: &Vec<String>)
        requires
            old(self)@.wf(),
        ensures
            final(self)@ == old(self)@.decline_all(names_view(account_ids@)),
            final(self)@.wf(),
    {
        let ghost before = self@;
        let ghost names = names_view(account_ids@);
        let mut k: usize = 0;
        assert(names.take(0) =~= Seq::empty());
        while k < account_ids.len()
            invariant
                before == old(self)@,
                names == names_view(account_ids@),
                0 <= k <= account_ids@.len(),
                self@ == before.decline_all(names.take(k as int)),
                self@.wf(),
            decreases account_ids@.len() - k,
        {
            proof {
                assert(names.take(k + 1).drop_last() =~= names.take(k as int));
                assert(names.take(k + 1).last() == account_ids@[k as int]@);
            }
            self.decline_from(&account_ids[k]);
            k += 1;
        }
        proof {
            assert(names.take(k as int) =~= names);
        }
    }
}

} // verus!
