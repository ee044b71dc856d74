use vstd::prelude::*;
use crate::account::{
    authorize_grants, authorize_orders, authorized_transfers, lemma_authorize_grants, BASIS_POINTS,
};
use crate::grant::TransferKey;
use crate::ledger::{
    grants_of, lemma_add_transfers, lemma_nothing_in_flight, lemma_replace_grants,
    lemma_replace_transfers, pending_for,
};
use crate::model::{has_key, lemma_position_of_present, position, with_value};
use crate::{grants_wf, Contract, LedgerView, Name, Transfers};

verus! {

/// What an authorization asks of its caller: whether to pause the ledger,
/// the transfers to submit as one batch, and the key of each transfer, in
/// the order of the batch, to hand to the reconciliation.
#[derive(Debug, PartialEq, Eq)]
pub struct Authorization {
    pub pause: bool,
    pub transfers: Vec<(String, u128)>,
    pub transfer_keys: Vec<TransferKey>,
}

/// One transfer of a batch: the beneficiary, the second at which the grant
/// was issued, and the amount.
pub type Dispatch = (Name, u32, u128);

/// The transfers of one beneficiary as transfers of a batch.
pub open spec fn dispatched(id: Name, transfers: Transfers) -> Seq<Dispatch> {
    Seq::new(transfers.len(), |i: int| (id, transfers[i].0, transfers[i].1))
}

/// Whether the transfers and the keys speak of the same beneficiaries, one
/// by one.
pub open spec fn aligned(transfers: Seq<(String, u128)>, keys: Seq<TransferKey>) -> bool {
    &&& transfers.len() == keys.len()
    &&& forall|i: int|
        0 <= i < keys.len() ==> (#[trigger] transfers[i]).0@ == (#[trigger] keys[i]).account_id@
}

/// The batch that the transfers and their keys describe.
pub open spec fn batch_view(transfers: Seq<(String, u128)>, keys: Seq<TransferKey>) -> Seq<
    Dispatch,
> {
    Seq::new(keys.len(), |i: int| (keys[i].account_id@, keys[i].issue_at, transfers[i].1))
}

/// The keys of the transfers of a batch.
pub open spec fn batch_keys(batch: Seq<Dispatch>) -> Seq<(Name, u32)> {
    Seq::new(batch.len(), |i: int| (batch[i].0, batch[i].1))
}

impl LedgerView {
    /// What an authorization sends to one beneficiary.
    pub open spec fn sent_to(self, id: Name, percentage: u32) -> Transfers {
        if has_key(self.accounts, id) {
            authorized_transfers(
                grants_of(self.accounts, id),
                pending_for(self.pending_transfers, id),
                percentage,
            )
        } else {
            Seq::empty()
        }
    }

    /// The ledger after the orders of one beneficiary were authorized: what
    /// is sent counts as claimed at once, and is recorded as in flight for
    /// the beneficiary, in place of what was recorded before.
    pub open spec fn authorize_for(self, id: Name, percentage: u32) -> LedgerView {
        if has_key(self.accounts, id) {
            let grants = grants_of(self.accounts, id);
            let pending = pending_for(self.pending_transfers, id);
            let sent = self.sent_to(id, percentage);
            LedgerView {
                accounts: self.accounts.update(
                    position(self.accounts, id),
                    (id, authorize_grants(grants, pending, percentage)),
                ),
                pending_transfers: if sent.len() > 0 {
                    with_value(self.pending_transfers, id, sent)
                } else {
                    self.pending_transfers
                },
                ..self
            }
        } else {
            self
        }
    }

    /// The ledger after the orders of the beneficiaries were authorized, one
    /// beneficiary after the other.
    pub open spec fn authorize_all(self, ids: Seq<Name>, percentage: u32) -> LedgerView
        decreases ids.len(),
    {
        if ids.len() == 0 {
            self
        } else {
            self.authorize_all(ids.drop_last(), percentage).authorize_for(ids.last(), percentage)
        }
    }

    /// The transfers that the authorization of the beneficiaries sends, in
    /// the order of the beneficiaries and, for each, of its grants.
    pub open spec fn batch(self, ids: Seq<Name>, percentage: u32) -> Seq<Dispatch>
        decreases ids.len(),
    {
        if ids.len() == 0 {
            Seq::empty()
        } else {
            self.batch(ids.drop_last(), percentage) + dispatched(
                ids.last(),
                self.authorize_all(ids.drop_last(), percentage).sent_to(ids.last(), percentage),
            )
        }
    }

    /// The ledger with nothing recorded as in flight.
    pub open spec fn without_pending(self) -> LedgerView {
        LedgerView { pending_transfers: Seq::empty(), ..self }
    }

    /// The ledger after an authorization: with no basis points the orders
    /// are declined; otherwise the record of what is in flight starts anew
    /// and the orders are authorized.
    pub open spec fn authorize(self, ids: Seq<Name>, percentage: u32) -> LedgerView {
        if percentage == 0 {
            self.decline_all(ids)
        } else {
            self.without_pending().authorize_all(ids, percentage)
        }
    }

    /// The batch that an authorization submits.
    pub open spec fn authorized_batch(self, ids: Seq<Name>, percentage: u32) -> Seq<Dispatch> {
        if percentage == 0 {
            Seq::empty()
        } else {
            self.without_pending().batch(ids, percentage)
        }
    }
}

/// The basis points that an authorization settles where none are given.
pub open spec fn percentage_or_all(percentage: Option<u32>) -> u32 {
    match percentage {
        Some(given) => given,
        None => BASIS_POINTS,
    }
}

/// Forgetting what is in flight keeps the ledger well formed.
pub proof fn lemma_without_pending(ledger: LedgerView)
    requires
        ledger.wf(),
    ensures
        ledger.without_pending().wf(),
        ledger.without_pending().holdings() <= ledger.holdings(),
{
    lemma_nothing_in_flight();
}

/// The authorization of one beneficiary's orders keeps the ledger well
/// formed, adds nothing to its holdings and leaves the spare pool alone.
pub proof fn lemma_authorize_for(ledger: LedgerView, id: Name, percentage: u32)
    requires
        ledger.wf(),
        percentage <= BASIS_POINTS,
    ensures
        ledger.authorize_for(id, percentage).wf(),
        ledger.authorize_for(id, percentage).holdings() <= ledger.holdings(),
        ledger.authorize_for(id, percentage).spare_balance == ledger.spare_balance,
        ledger.authorize_for(id, percentage).config == ledger.config,
{
    if has_key(ledger.accounts, id) {
        let grants = grants_of(ledger.accounts, id);
        let pending = pending_for(ledger.pending_transfers, id);
        let sent = ledger.sent_to(id, percentage);
        lemma_position_of_present(ledger.accounts, id);
        let at = position(ledger.accounts, id);
        assert(grants_wf(ledger.accounts[at].1, ledger.config));
        lemma_authorize_grants(grants, pending, percentage, ledger.config);
        lemma_replace_grants(
            ledger.accounts,
            at,
            authorize_grants(grants, pending, percentage),
            ledger.config,
        );
        if sent.len() > 0 {
            if has_key(ledger.pending_transfers, id) {
                lemma_position_of_present(ledger.pending_transfers, id);
                lemma_replace_transfers(
                    ledger.pending_transfers,
                    position(ledger.pending_transfers, id),
                    sent,
                );
            } else {
                lemma_add_transfers(ledger.pending_transfers, id, sent);
            }
        }
    }
}

/// An authorization of orders keeps the ledger well formed, adds nothing to
/// its holdings and leaves the spare pool alone.
pub proof fn lemma_authorize_all(ledger: LedgerView, ids: Seq<Name>, percentage: u32)
    requires
        ledger.wf(),
        percentage <= BASIS_POINTS,
    ensures
        ledger.authorize_all(ids, percentage).wf(),
        ledger.authorize_all(ids, percentage).holdings() <= ledger.holdings(),
        ledger.authorize_all(ids, percentage).spare_balance == ledger.spare_balance,
        ledger.authorize_all(ids, percentage).config == ledger.config,
    decreases ids.len(),
{
    if ids.len() > 0 {
        lemma_authorize_all(ledger, ids.drop_last(), percentage);
        lemma_authorize_for(
            ledger.authorize_all(ids.drop_last(), percentage),
            ids.last(),
            percentage,
        );
    }
}

impl Contract {
    /// Authorizes the orders of one beneficiary and adds what is sent to the
    /// batch.
    pub(crate) fn authorize_for(
        &mut self,
        account_id: &String,
        percentage: u32,
        transfers: &mut Vec<(String, u128)>,
        transfer_keys: &mut Vec<TransferKey>,
    )
        requires
            old(self)@.wf(),
            percentage <= BASIS_POINTS,
            aligned(old(transfers)@, old(transfer_keys)@),
        ensures
            final(self)@ == old(self)@.authorize_for(account_id@, percentage),
            final(self)@.wf(),
            aligned(final(transfers)@, final(transfer_keys)@),
            batch_view(final(transfers)@, final(transfer_keys)@) == batch_view(
                old(transfers)@,
                old(transfer_keys)@,
            ) + dispatched(account_id@, old(self)@.sent_to(account_id@, percentage)),
    {
        proof {
            lemma_authorize_for(self@, account_id@, percentage);
        }
        let ghost before = self@;
        let ghost grants = grants_of(before.accounts, account_id@);
        let ghost pending = pending_for(before.pending_transfers, account_id@);
        let ghost batch = batch_view(transfers@, transfer_keys@);
        match self.find_account(account_id) {
            None => {
                assert(batch + dispatched(account_id@, Seq::empty()) =~= batch);
            },
            Some(index) => {
                proof {
                    assert(grants_wf(before.accounts[index as int].1, before.config));
                }
                let found = self.find_pending(account_id);
                let sent: Vec<(u32, u128)> = match found {
                    Some(at) => authorize_orders(
                        &mut self.accounts[index].1.grants,
                        &self.pending_transfers[at].1,
                        percentage,
                    ),
                    None => {
                        let none: Vec<(u32, u128)> = Vec::new();
                        authorize_orders(&mut self.accounts[index].1.grants, &none, percentage)
                    },
                };
                proof {
                    assert(self@.accounts =~= before.accounts.update(
                        index as int,
                        (account_id@, authorize_grants(grants, pending, percentage)),
                    ));
                    assert(self@.pending_transfers =~= before.pending_transfers);
                }
                let mut i: usize = 0;
                while i < sent.len()
                    invariant
                        0 <= i <= sent@.len(),
                        aligned(transfers@, transfer_keys@),
                        batch_view(transfers@, transfer_keys@) == batch + dispatched(
                            account_id@,
                            sent@.take(i as int),
                        ),
                    decreases sent@.len() - i,
                {
                    let ghost reached = batch_view(transfers@, transfer_keys@);
                    transfers.push((account_id.clone(), sent[i].1));
                    transfer_keys.push(
                        TransferKey { account_id: account_id.clone(), issue_at: sent[i].0 },
                    );
                    proof {
                        assert(batch_view(transfers@, transfer_keys@) =~= reached.push(
                            (account_id@, sent@[i as int].0, sent@[i as int].1),
                        ));
                        assert(dispatched(account_id@, sent@.take(i + 1)) =~= dispatched(
                            account_id@,
                            sent@.take(i as int),
                        ).push((account_id@, sent@[i as int].0, sent@[i as int].1)));
                        assert(batch + dispatched(account_id@, sent@.take(i + 1)) =~= (batch
                            + dispatched(account_id@, sent@.take(i as int))).push(
                            (account_id@, sent@[i as int].0, sent@[i as int].1),
                        ));
                    }
                    i += 1;
                }
                proof {
                    assert(sent@.take(i as int) =~= sent@);
                }
                if sent.len() > 0 {
                    let ghost stored = self@.pending_transfers;
                    match found {
                        Some(at) => {
                            self.pending_transfers[at].1 = sent;
                            proof {
                                assert(self@.pending_transfers =~= stored.update(
                                    at as int,
                                    (account_id@, sent@),
                                ));
                            }
                        },
                        None => {
                            self.pending_transfers.push((account_id.clone(), sent));
                            proof {
                                assert(self@.pending_transfers =~= stored.push(
                                    (account_id@, sent@),
                                ));
                            }
                        },
                    }
                    proof {
                        assert(self@.accounts =~= before.accounts.update(
                            index as int,
                            (account_id@, authorize_grants(grants, pending, percentage)),
                        ));
                    }
                }
            },
        }
    }
}

} // verus!
