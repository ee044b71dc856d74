use vstd::prelude::*;
use crate::account::{
    bought_in, buy_grants, claim_grants, decline_grants, recovered_in, BASIS_POINTS,
};
use crate::authorize::{lemma_authorize_all, lemma_without_pending};
use crate::issuance::{lemma_issue_one, requested, requested_amounts};
use crate::ledger::{grants_of, pending_for};
use crate::model::{
    has_key, lemma_position_of_present, lemma_same_keys, lemma_total_prefix,
    lemma_value_after_store, lemma_value_after_update, same_keys, value_of,
};
use crate::reconcile::{lemma_revert_failed, TransferResult};
use crate::settlement::{lemma_buy_all, lemma_buy_from, lemma_claim, lemma_decline_all};
use crate::termination::lemma_terminate;
use crate::{Grant, Grants, LedgerView, Name};

verus! {

/// An operation on the ledger that was let through: its caller holds the
/// role it asks for, and the ledger runs or is paused as it asks.
pub enum Operation {
    Claim { caller: Name, now: u32 },
    Buy { ids: Seq<Name>, percentage: u32 },
    Decline { ids: Seq<Name> },
    Authorize { ids: Seq<Name>, percentage: u32 },
    Reconcile { keys: Seq<(Name, u32)>, results: Seq<TransferResult> },
    Terminate { id: Name, now: u32, terminate_at: u32 },
    Issue { issue_at: u32, grants: Seq<(Name, u128)> },
}

impl LedgerView {
    /// Whether the operation is one that the ledger takes: its basis points
    /// are at most the whole, its results are as many as its keys, the grants
    /// it issues are for a second that the configuration covers.
    pub open spec fn admits(self, operation: Operation) -> bool {
        match operation {
            Operation::Buy { ids, percentage } => percentage <= BASIS_POINTS,
            Operation::Authorize { ids, percentage } => percentage <= BASIS_POINTS,
            Operation::Reconcile { keys, results } => keys.len() == results.len(),
            Operation::Issue { issue_at, grants } => self.config.covers(issue_at),
            _ => true,
        }
    }

    /// The ledger after the operation. An issue that is refused changes
    /// nothing.
    pub open spec fn apply(self, operation: Operation) -> LedgerView {
        match operation {
            Operation::Claim { caller, now } => self.claim(caller, now),
            Operation::Buy { ids, percentage } => self.buy(ids, percentage),
            Operation::Decline { ids } => self.decline_all(ids),
            Operation::Authorize { ids, percentage } => self.authorize(ids, percentage),
            Operation::Reconcile { keys, results } => self.reconcile(keys, results),
            Operation::Terminate { id, now, terminate_at } => self.terminate(
                id,
                now,
                terminate_at,
            ),
            Operation::Issue { issue_at, grants } => match self.issue(issue_at, grants) {
                Ok(issued) => issued,
                Err(_) => self,
            },
        }
    }

    /// The ledger after the operations, one after the other.
    pub open spec fn run(self, operations: Seq<Operation>) -> LedgerView
        decreases operations.len(),
    {
        if operations.len() == 0 {
            self
        } else {
            self.run(operations.drop_last()).apply(operations.last())
        }
    }

    /// Whether the ledger takes each of the operations when its turn comes.
    pub open spec fn admits_all(self, operations: Seq<Operation>) -> bool
        decreases operations.len(),
    {
        if operations.len() == 0 {
            true
        } else {
            self.admits_all(operations.drop_last()) && self.run(operations.drop_last()).admits(
                operations.last(),
            )
        }
    }

    /// What a buyback of the beneficiaries' orders settles in all.
    pub open spec fn bought_by(self, ids: Seq<Name>, percentage: u32) -> nat
        decreases ids.len(),
    {
        if ids.len() == 0 {
            0
        } else {
            let earlier = self.buy_all(ids.drop_last(), percentage);
            self.bought_by(ids.drop_last(), percentage) + if has_key(earlier.accounts, ids.last()) {
                bought_in(
                    grants_of(earlier.accounts, ids.last()),
                    pending_for(earlier.pending_transfers, ids.last()),
                    percentage,
                )
            } else {
                0
            }
        }
    }

    /// What the operation adds to the spare pool: what a buyback settles and
    /// what a termination gives back, less what an issue grants.
    pub open spec fn spare_change(self, operation: Operation) -> int {
        match operation {
            Operation::Buy { ids, percentage } => if percentage == 0 {
                0
            } else {
                self.bought_by(ids, percentage) as int
            },
            Operation::Terminate { id, now, terminate_at } => if has_key(self.accounts, id) {
                recovered_in(
                    grants_of(self.accounts, id),
                    pending_for(self.pending_transfers, id),
                    self.config,
                    now,
                    terminate_at,
                ) as int
            } else {
                0
            },
            Operation::Issue { issue_at, grants } => if self.issue(issue_at, grants) is Ok {
                -(requested(grants) as int)
            } else {
                0
            },
            _ => 0,
        }
    }

    /// What the operations add to the spare pool in all.
    pub open spec fn spare_changes(self, operations: Seq<Operation>) -> int
        decreases operations.len(),
    {
        if operations.len() == 0 {
            0
        } else {
            self.spare_changes(operations.drop_last()) + self.run(
                operations.drop_last(),
            ).spare_change(operations.last())
        }
    }

    /// The grant of the beneficiary that was issued at that second, if any.
    pub open spec fn grant_of(self, id: Name, issue_at: u32) -> Option<Grant> {
        value_of(grants_of(self.accounts, id), issue_at)
    }

    /// Whether a transfer for the beneficiary's grant is recorded as in
    /// flight.
    pub open spec fn is_in_flight(self, id: Name, issue_at: u32) -> bool {
        has_key(pending_for(self.pending_transfers, id), issue_at)
    }
}

/// A buyback adds to the spare pool exactly what it settles.
pub proof fn lemma_buy_all_gain(ledger: LedgerView, ids: Seq<Name>, percentage: u32)
    requires
        ledger.wf(),
        percentage <= BASIS_POINTS,
    ensures
        ledger.buy_all(ids, percentage).spare_balance == ledger.spare_balance + ledger.bought_by(
            ids,
            percentage,
        ),
    decreases ids.len(),
{
    if ids.len() > 0 {
        lemma_buy_all_gain(ledger, ids.drop_last(), percentage);
        lemma_buy_all(ledger, ids.drop_last(), percentage);
        lemma_buy_from(ledger.buy_all(ids.drop_last(), percentage), ids.last(), percentage);
    }
}

/// Issuing grants that the spare pool covers, none of which meets a grant
/// that exists, keeps the ledger well formed and its holdings, and takes
/// from the pool exactly their sum.
pub proof fn lemma_issue_all(ledger: LedgerView, issue_at: u32, grants: Seq<(Name, u128)>)
    requires
        ledger.wf(),
        ledger.config.covers(issue_at),
        requested(grants) <= ledger.spare_balance,
        !ledger.issue_collides(issue_at, grants),
    ensures
        ledger.issue_all(issue_at, grants).wf(),
        ledger.issue_all(issue_at, grants).config == ledger.config,
        ledger.issue_all(issue_at, grants).holdings() == ledger.holdings(),
        ledger.issue_all(issue_at, grants).spare_balance == ledger.spare_balance - requested(
            grants,
        ),
    decreases grants.len(),
{
    if grants.len() > 0 {
        let amounts = requested_amounts(grants);
        assert(requested_amounts(grants.drop_last()) =~= amounts.drop_last());
        assert(amounts.drop_last() =~= amounts.take(grants.len() - 1));
        lemma_total_prefix(amounts, grants.len() - 1);
        lemma_issue_all(ledger, issue_at, grants.drop_last());
        lemma_issue_one(
            ledger.issue_all(issue_at, grants.drop_last()),
            issue_at,
            grants.last().0,
            grants.last().1,
        );
    } else {
        assert(requested_amounts(grants) =~= Seq::empty());
    }
}

/// Every operation that the ledger takes keeps it well formed, so that of no
/// grant more counts as claimed and ordered than the grant holds; none adds
/// to what the ledger answers for; and each changes the spare pool by
/// exactly what a buyback settles, a termination gives back or an issue
/// grants.
pub proof fn law_operation_keeps_ledger(ledger: LedgerView, operation: Operation)
    requires
        ledger.wf(),
        ledger.admits(operation),
    ensures
        ledger.apply(operation).wf(),
        ledger.apply(operation).config == ledger.config,
        ledger.apply(operation).holdings() <= ledger.holdings(),
        ledger.apply(operation).spare_balance == ledger.spare_balance + ledger.spare_change(
            operation,
        ),
{
    match operation {
        Operation::Claim { caller, now } => {
            lemma_claim(ledger, caller, now);
        },
        Operation::Buy { ids, percentage } => {
            if percentage == 0 {
                lemma_decline_all(ledger, ids);
                lemma_decline_all_config(ledger, ids);
            } else {
                lemma_buy_all(ledger, ids, percentage);
                lemma_buy_all_gain(ledger, ids, percentage);
                lemma_buy_all_config(ledger, ids, percentage);
            }
        },
        Operation::Decline { ids } => {
            lemma_decline_all(ledger, ids);
            lemma_decline_all_config(ledger, ids);
        },
        Operation::Authorize { ids, percentage } => {
            if percentage == 0 {
                lemma_decline_all(ledger, ids);
                lemma_decline_all_config(ledger, ids);
            } else {
                lemma_without_pending(ledger);
                lemma_authorize_all(ledger.without_pending(), ids, percentage);
            }
        },
        Operation::Reconcile { keys, results } => {
            lemma_revert_failed(ledger, keys, results);
            lemma_revert_failed_config(ledger, keys, results);
            lemma_without_pending(ledger.revert_failed(keys, results));
        },
        Operation::Terminate { id, now, terminate_at } => {
            lemma_terminate(ledger, id, now, terminate_at);
        },
        Operation::Issue { issue_at, grants } => {
            if ledger.issue(issue_at, grants) is Ok {
                lemma_issue_all(ledger, issue_at, grants);
            }
        },
    }
}

proof fn lemma_decline_all_config(ledger: LedgerView, ids: Seq<Name>)
    ensures
        ledger.decline_all(ids).config == ledger.config,
    decreases ids.len(),
{
    if ids.len() > 0 {
        lemma_decline_all_config(ledger, ids.drop_last());
    }
}

proof fn lemma_buy_all_config(ledger: LedgerView, ids: Seq<Name>, percentage: u32)
    ensures
        ledger.buy_all(ids, percentage).config == ledger.config,
    decreases ids.len(),
{
    if ids.len() > 0 {
        lemma_buy_all_config(ledger, ids.drop_last(), percentage);
    }
}

proof fn lemma_revert_failed_config(
    ledger: LedgerView,
    keys: Seq<(Name, u32)>,
    results: Seq<TransferResult>,
)
    ensures
        ledger.revert_failed(keys, results).config == ledger.config,
    decreases keys.len(),
{
    if keys.len() > 0 {
        lemma_revert_failed_config(ledger, keys.drop_last(), results.drop_last());
    }
}

/// Whatever operations the ledger takes, in whatever order, and however the
/// transfers of its batches end: after each of them the ledger is well
/// formed, and of no grant more counts as claimed than the grant holds.
pub proof fn law_claimed_never_exceeds_total(
    ledger: LedgerView,
    operations: Seq<Operation>,
    account: int,
    grant: int,
)
    requires
        ledger.wf(),
        ledger.admits_all(operations),
        0 <= account < ledger.run(operations).accounts.len(),
        0 <= grant < ledger.run(operations).accounts[account].1.len(),
    ensures
        ledger.run(operations).wf(),
        ledger.run(operations).accounts[account].1[grant].1.claimed_amount <= ledger.run(
            operations,
        ).accounts[account].1[grant].1.total_amount,
{
    law_conservation(ledger, operations);
    let reached = ledger.run(operations);
    assert(crate::grants_wf(reached.accounts[account].1, reached.config));
    assert(reached.accounts[account].1[grant].1.wf());
}

/// Over any sequence of operations that the ledger takes, the spare pool
/// changes by exactly the sum of what the buybacks settle and what the
/// terminations give back, less what the issues grant; and the ledger never
/// answers for more than it did before.
pub proof fn law_conservation(ledger: LedgerView, operations: Seq<Operation>)
    requires
        ledger.wf(),
        ledger.admits_all(operations),
    ensures
        ledger.run(operations).wf(),
        ledger.run(operations).config == ledger.config,
        ledger.run(operations).spare_balance - ledger.spare_balance == ledger.spare_changes(
            operations,
        ),
        ledger.run(operations).holdings() <= ledger.holdings(),
    decreases operations.len(),
{
    if operations.len() > 0 {
        law_conservation(ledger, operations.drop_last());
        law_operation_keeps_ledger(ledger.run(operations.drop_last()), operations.last());
    }
}

/// The grants after a claim are those from before wherever a transfer is in
/// flight.
proof fn lemma_claim_skips(
    grants: Grants,
    pending: crate::Transfers,
    config: crate::Config,
    now: u32,
    issue_at: u32,
)
    requires
        has_key(pending, issue_at),
    ensures
        value_of(claim_grants(grants, pending, config, now), issue_at) == value_of(
            grants,
            issue_at,
        ),
{
    let after = claim_grants(grants, pending, config, now);
    assert(same_keys(grants, after));
    lemma_same_keys(grants, after, issue_at);
    if has_key(grants, issue_at) {
        lemma_position_of_present(grants, issue_at);
    }
}

/// The grants after a buyback are those from before wherever a transfer is
/// in flight.
proof fn lemma_buy_skips(grants: Grants, pending: crate::Transfers, percentage: u32, issue_at: u32)
    requires
        has_key(pending, issue_at),
    ensures
        value_of(buy_grants(grants, pending, percentage), issue_at) == value_of(grants, issue_at),
{
    let after = buy_grants(grants, pending, percentage);
    assert(same_keys(grants, after));
    lemma_same_keys(grants, after, issue_at);
    if has_key(grants, issue_at) {
        lemma_position_of_present(grants, issue_at);
    }
}

/// The buyback of one beneficiary's orders leaves a grant with a transfer in
/// flight as it is, and what is in flight as well.
proof fn lemma_buy_from_skips(
    ledger: LedgerView,
    buyer: Name,
    percentage: u32,
    id: Name,
    issue_at: u32,
)
    requires
        ledger.is_in_flight(id, issue_at),
    ensures
        ledger.buy_from(buyer, percentage).grant_of(id, issue_at) == ledger.grant_of(id, issue_at),
        ledger.buy_from(buyer, percentage).pending_transfers == ledger.pending_transfers,
{
    if has_key(ledger.accounts, buyer) {
        let grants = grants_of(ledger.accounts, buyer);
        let pending = pending_for(ledger.pending_transfers, buyer);
        lemma_value_after_update(
            ledger.accounts,
            buyer,
            buy_grants(grants, pending, percentage),
            id,
        );
        if buyer == id {
            lemma_buy_skips(grants, pending, percentage, issue_at);
        }
    }
}

proof fn lemma_buy_all_skips(
    ledger: LedgerView,
    ids: Seq<Name>,
    percentage: u32,
    id: Name,
    issue_at: u32,
)
    requires
        ledger.is_in_flight(id, issue_at),
    ensures
        ledger.buy_all(ids, percentage).grant_of(id, issue_at) == ledger.grant_of(id, issue_at),
        ledger.buy_all(ids, percentage).pending_transfers == ledger.pending_transfers,
    decreases ids.len(),
{
    if ids.len() > 0 {
        lemma_buy_all_skips(ledger, ids.drop_last(), percentage, id, issue_at);
        lemma_buy_from_skips(
            ledger.buy_all(ids.drop_last(), percentage),
            ids.last(),
            percentage,
            id,
            issue_at,
        );
    }
}

/// The grants after a declining are those from before wherever a transfer
/// is in flight.
proof fn lemma_decline_skips(grants: Grants, pending: crate::Transfers, issue_at: u32)
    requires
        has_key(pending, issue_at),
    ensures
        value_of(decline_grants(grants, pending), issue_at) == value_of(grants, issue_at),
{
    let after = decline_grants(grants, pending);
    assert(same_keys(grants, after));
    lemma_same_keys(grants, after, issue_at);
    if has_key(grants, issue_at) {
        lemma_position_of_present(grants, issue_at);
    }
}

proof fn lemma_decline_all_skips(ledger: LedgerView, ids: Seq<Name>, id: Name, issue_at: u32)
    requires
        ledger.is_in_flight(id, issue_at),
    ensures
        ledger.decline_all(ids).grant_of(id, issue_at) == ledger.grant_of(id, issue_at),
        ledger.decline_all(ids).pending_transfers == ledger.pending_transfers,
    decreases ids.len(),
{
    if ids.len() > 0 {
        lemma_decline_all_skips(ledger, ids.drop_last(), id, issue_at);
        let earlier = ledger.decline_all(ids.drop_last());
        let last = ids.last();
        if has_key(earlier.accounts, last) {
            let grants = grants_of(earlier.accounts, last);
            let pending = pending_for(earlier.pending_transfers, last);
            lemma_value_after_update(earlier.accounts, last, decline_grants(grants, pending), id);
            if last == id {
                lemma_decline_skips(grants, pending, issue_at);
            }
        }
    }
}

/// While a transfer for a beneficiary's grant is recorded as in flight, a
/// claim, whoever makes it and whenever, and a buyback, of whose orders and
/// at whatever basis points, leave that grant as it is: what counts as
/// claimed of it, what is on order, and the rest.
pub proof fn law_grant_in_flight_is_left_alone(
    ledger: LedgerView,
    id: Name,
    issue_at: u32,
    caller: Name,
    now: u32,
    ids: Seq<Name>,
    percentage: u32,
)
    requires
        ledger.is_in_flight(id, issue_at),
    ensures
        ledger.claim(caller, now).grant_of(id, issue_at) == ledger.grant_of(id, issue_at),
        ledger.claim(caller, now).is_in_flight(id, issue_at),
        ledger.buy(ids, percentage).grant_of(id, issue_at) == ledger.grant_of(id, issue_at),
        ledger.buy(ids, percentage).is_in_flight(id, issue_at),
{
    let grants = grants_of(ledger.accounts, caller);
    let pending = pending_for(ledger.pending_transfers, caller);
    lemma_value_after_store(
        ledger.accounts,
        caller,
        claim_grants(grants, pending, ledger.config, now),
        id,
    );
    if caller == id {
        lemma_claim_skips(grants, pending, ledger.config, now, issue_at);
    }
    lemma_buy_all_skips(ledger, ids, percentage, id, issue_at);
    lemma_decline_all_skips(ledger, ids, id, issue_at);
}

} // verus!
