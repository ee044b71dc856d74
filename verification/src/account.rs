use vstd::prelude::*;
use crate::event::OrderUpdateData;
use crate::grant::lemma_termination_keeps_grant;
use crate::model::{
    has_key, lemma_total_is_additive, lemma_total_is_monotonic, lemma_total_prefix,
    lemma_total_push, lemma_total_take, total_of,
};
use crate::vesting::{lemma_share_is_bounded, share, share_of};
use crate::{
    grants_wf, outstanding_in, owed_amounts, transfer_amounts, transferred, Config, Grant, Grants,
    Transfers,
};

verus! {

/// The basis points that make up the whole of an amount.
pub const BASIS_POINTS: u32 = 10_000;

impl Grant {
    /// The grant after a claim at `now`: where more has vested than was
    /// claimed and ordered together, the order is raised by the surplus.
    pub open spec fn claimed_up(&self, issue_at: u32, config: Config, now: u32) -> Grant {
        let vested = self.vested_at(issue_at, config, now);
        if vested > self.claimed_amount + self.order_amount {
            Grant { order_amount: (vested - self.claimed_amount) as u128, ..*self }
        } else {
            *self
        }
    }

    /// The part of the order that `percentage` basis points settle, rounded
    /// down.
    pub open spec fn settled(&self, percentage: u32) -> nat {
        share_of(self.order_amount, percentage, BASIS_POINTS)
    }

    /// The grant after a buyback: the settled part of the order counts as
    /// claimed and the order is gone.
    pub open spec fn bought_out(&self, percentage: u32) -> Grant {
        Grant {
            claimed_amount: (self.claimed_amount + self.settled(percentage)) as u128,
            order_amount: 0,
            ..*self
        }
    }

    /// The grant after an authorization: as after a buyback, unless nothing
    /// of the order is settled, which leaves the grant as it is.
    pub open spec fn paid_out(&self, percentage: u32) -> Grant {
        if self.settled(percentage) == 0 {
            *self
        } else {
            self.bought_out(percentage)
        }
    }

    /// The grant without its order.
    pub open spec fn declined(&self) -> Grant {
        Grant { order_amount: 0, ..*self }
    }

    /// The grant with `amount` moved back from what was claimed to the order.
    pub open spec fn reverted(&self, amount: u128) -> Grant {
        Grant {
            claimed_amount: (self.claimed_amount - amount) as u128,
            order_amount: (self.order_amount + amount) as u128,
            ..*self
        }
    }
}

/// Whether every grant is within its own bounds.
pub open spec fn each_wf(grants: Grants) -> bool {
    forall|i: int| 0 <= i < grants.len() ==> (#[trigger] grants[i]).1.wf()
}

/// Whether a transfer for the grant issued at `issue_at` is in flight.
pub fn is_pending(pending: &Vec<(u32, u128)>, issue_at: u32) -> (found: bool)
    ensures
        found == has_key(pending@, issue_at),
{
    let mut i: usize = 0;
    while i < pending.len()
        invariant
            0 <= i <= pending@.len(),
            forall|j: int| 0 <= j < i ==> (#[trigger] pending@[j]).0 != issue_at,
        decreases pending@.len() - i,
    {
        if pending[i].0 == issue_at {
            return true;
        }
        i += 1;
    }
    false
}

/// The grants of an account after a claim at `now`: every grant without a
/// transfer in flight is claimed up.
pub open spec fn claim_grants(grants: Grants, pending: Transfers, config: Config, now: u32)
    -> Grants {
    Seq::new(
        grants.len(),
        |i: int|
            if has_key(pending, grants[i].0) {
                grants[i]
            } else {
                (grants[i].0, grants[i].1.claimed_up(grants[i].0, config, now))
            },
    )
}

/// What a claim at `now` reports: for every grant without a transfer in
/// flight of which something has vested, its order after the claim.
pub open spec fn claim_events(grants: Grants, pending: Transfers, config: Config, now: u32) -> Seq<
    OrderUpdateData,
>
    decreases grants.len(),
{
    if grants.len() == 0 {
        Seq::empty()
    } else {
        let earlier = claim_events(grants.drop_last(), pending, config, now);
        let (issue_at, grant) = grants.last();
        if !has_key(pending, issue_at) && grant.vested_at(issue_at, config, now) != 0 {
            earlier.push(
                OrderUpdateData {
                    issue_at,
                    amount: grant.claimed_up(issue_at, config, now).order_amount,
                },
            )
        } else {
            earlier
        }
    }
}

/// A claim keeps the grants well formed and what they owe.
pub proof fn lemma_claim_grants(grants: Grants, pending: Transfers, config: Config, now: u32)
    requires
        grants_wf(grants, config),
    ensures
        grants_wf(claim_grants(grants, pending, config, now), config),
        outstanding_in(claim_grants(grants, pending, config, now)) == outstanding_in(grants),
{
    let after = claim_grants(grants, pending, config, now);
    assert forall|i: int| 0 <= i < after.len() implies (#[trigger] after[i]).1.wf()
        && config.covers(after[i].0) by {
        assert(grants[i].1.wf() && config.covers(grants[i].0));
        crate::vesting::lemma_vested_amount_is_bounded(
            now,
            config.spec_cliff_end(grants[i].0) as u32,
            grants[i].1.vesting_stops_at(grants[i].0, config) as u32,
            grants[i].1.total_amount,
        );
    }
    assert forall|i: int, j: int| 0 <= i < j < after.len() implies (#[trigger] after[i]).0 != (
    #[trigger] after[j]).0 by {
        assert(grants[i].0 != grants[j].0);
    }
    assert(owed_amounts(after) =~= owed_amounts(grants));
}

/// Raises the order of every grant without a transfer in flight to what has
/// vested beyond what was claimed, and reports the orders it looked at.
pub fn claim_orders(
    grants: &mut Vec<(u32, Grant)>,
    pending: &Vec<(u32, u128)>,
    config: &Config,
    now: u32,
) -> (events: Vec<OrderUpdateData>)
    requires
        grants_wf(old(grants)@, *config),
    ensures
        final(grants)@ == claim_grants(old(grants)@, pending@, *config, now),
        events@ == claim_events(old(grants)@, pending@, *config, now),
{
    let mut events: Vec<OrderUpdateData> = Vec::new();
    let mut i: usize = 0;
    let ghost before = grants@;
    let ghost after = claim_grants(before, pending@, *config, now);
    assert(before.take(0) =~= Seq::empty());
    while i < grants.len()
        invariant
            before == old(grants)@,
            after == claim_grants(before, pending@, *config, now),
            grants_wf(before, *config),
            grants@.len() == before.len(),
            0 <= i <= before.len(),
            forall|j: int| 0 <= j < i ==> #[trigger] grants@[j] == after[j],
            forall|j: int| i <= j < before.len() ==> #[trigger] grants@[j] == before[j],
            events@ == claim_events(before.take(i as int), pending@, *config, now),
        decreases before.len() - i,
    {
        let issue_at: u32 = grants[i].0;
        let grant: Grant = grants[i].1;
        proof {
            assert(before.take(i + 1).drop_last() =~= before.take(i as int));
            assert(before.take(i + 1).last() == before[i as int]);
            assert(before[i as int].1.wf() && config.covers(before[i as int].0));
        }
        if !is_pending(pending, issue_at) {
            let vested: u128 = grant.get_vested_amount(issue_at, config, now);
            if vested != 0 {
                if vested > grant.claimed_amount + grant.order_amount {
                    grants[i].1.order_amount = vested - grant.claimed_amount;
                }
                events.push(OrderUpdateData { issue_at, amount: grants[i].1.order_amount });
            }
        }
        i += 1;
    }
    proof {
        assert(before.take(i as int) =~= before);
        assert(grants@ =~= after);
    }
    events
}

/// The grants of an account after a buyback: every grant without a transfer
/// in flight is bought out.
pub open spec fn buy_grants(grants: Grants, pending: Transfers, percentage: u32) -> Grants {
    Seq::new(
        grants.len(),
        |i: int|
            if has_key(pending, grants[i].0) {
                grants[i]
            } else {
                (grants[i].0, grants[i].1.bought_out(percentage))
            },
    )
}

/// What a buyback settles of each grant.
pub open spec fn bought_amounts(grants: Grants, pending: Transfers, percentage: u32) -> Seq<nat> {
    Seq::new(
        grants.len(),
        |i: int|
            if has_key(pending, grants[i].0) {
                0
            } else {
                grants[i].1.settled(percentage)
            },
    )
}

/// What a buyback settles of an account.
pub open spec fn bought_in(grants: Grants, pending: Transfers, percentage: u32) -> nat {
    total_of(bought_amounts(grants, pending, percentage))
}

/// A buyback keeps the grants well formed, and what it settles is what the
/// grants owe less afterwards.
pub proof fn lemma_buy_grants(grants: Grants, pending: Transfers, percentage: u32, config: Config)
    requires
        grants_wf(grants, config),
        percentage <= BASIS_POINTS,
    ensures
        grants_wf(buy_grants(grants, pending, percentage), config),
        outstanding_in(buy_grants(grants, pending, percentage)) + bought_in(
            grants,
            pending,
            percentage,
        ) == outstanding_in(grants),
{
    let after = buy_grants(grants, pending, percentage);
    assert forall|i: int| 0 <= i < after.len() implies (#[trigger] after[i]).1.wf()
        && config.covers(after[i].0) && owed_amounts(after)[i] + bought_amounts(
        grants,
        pending,
        percentage,
    )[i] == owed_amounts(grants)[i] by {
        assert(grants[i].1.wf() && config.covers(grants[i].0));
        lemma_share_is_bounded(grants[i].1.order_amount, percentage, BASIS_POINTS);
    }
    assert forall|i: int, j: int| 0 <= i < j < after.len() implies (#[trigger] after[i]).0 != (
    #[trigger] after[j]).0 by {
        assert(grants[i].0 != grants[j].0);
    }
    lemma_total_is_additive(
        owed_amounts(after),
        bought_amounts(grants, pending, percentage),
        owed_amounts(grants),
    );
}

/// Buys out every grant without a transfer in flight and returns what was
/// settled.
pub fn buy_orders(
    grants: &mut Vec<(u32, Grant)>,
    pending: &Vec<(u32, u128)>,
    percentage: u32,
) -> (bought: u128)
    requires
        each_wf(old(grants)@),
        percentage <= BASIS_POINTS,
        outstanding_in(old(grants)@) <= u128::MAX,
    ensures
        final(grants)@ == buy_grants(old(grants)@, pending@, percentage),
        bought == bought_in(old(grants)@, pending@, percentage),
{
    let mut bought: u128 = 0;
    let mut i: usize = 0;
    let ghost before = grants@;
    let ghost after = buy_grants(before, pending@, percentage);
    let ghost amounts = bought_amounts(before, pending@, percentage);
    proof {
        assert(amounts.take(0) =~= Seq::empty());
        assert forall|j: int| 0 <= j < amounts.len() implies amounts[j] <= owed_amounts(before)[j] by {
            assert(before[j].1.wf());
            lemma_share_is_bounded(before[j].1.order_amount, percentage, BASIS_POINTS);
        }
        lemma_total_is_monotonic(amounts, owed_amounts(before));
    }
    while i < grants.len()
        invariant
            before == old(grants)@,
            after == buy_grants(before, pending@, percentage),
            amounts == bought_amounts(before, pending@, percentage),
            each_wf(before),
            percentage <= BASIS_POINTS,
            total_of(amounts) <= u128::MAX,
            grants@.len() == before.len(),
            0 <= i <= before.len(),
            forall|j: int| 0 <= j < i ==> #[trigger] grants@[j] == after[j],
            forall|j: int| i <= j < before.len() ==> #[trigger] grants@[j] == before[j],
            bought == total_of(amounts.take(i as int)),
        decreases before.len() - i,
    {
        let issue_at: u32 = grants[i].0;
        proof {
            lemma_total_take(amounts, i as int);
            lemma_total_prefix(amounts, i + 1);
            assert(before[i as int].1.wf());
            lemma_share_is_bounded(before[i as int].1.order_amount, percentage, BASIS_POINTS);
        }
        if !is_pending(pending, issue_at) {
            let settled: u128 = share(grants[i].1.order_amount, percentage, BASIS_POINTS);
            grants[i].1.claimed_amount = grants[i].1.claimed_amount + settled;
            grants[i].1.order_amount = 0;
            bought = bought + settled;
        }
        i += 1;
    }
    proof {
        assert(amounts.take(i as int) =~= amounts);
        assert(grants@ =~= after);
    }
    bought
}

/// The grants of an account after an authorization: every grant without a
/// transfer in flight is paid out.
pub open spec fn authorize_grants(grants: Grants, pending: Transfers, percentage: u32) -> Grants {
    Seq::new(
        grants.len(),
        |i: int|
            if has_key(pending, grants[i].0) {
                grants[i]
            } else {
                (grants[i].0, grants[i].1.paid_out(percentage))
            },
    )
}

/// What an authorization pays out of each grant.
pub open spec fn authorized_amounts(grants: Grants, pending: Transfers, percentage: u32) -> Seq<
    nat,
> {
    Seq::new(
        grants.len(),
        |i: int|
            if has_key(pending, grants[i].0) {
                0
            } else {
                grants[i].1.settled(percentage)
            },
    )
}

/// The transfers that an authorization sends for an account: one for every
/// grant without a transfer in flight of whose order something is settled,
/// in the order of the grants.
pub open spec fn authorized_transfers(grants: Grants, pending: Transfers, percentage: u32)
    -> Transfers
    decreases grants.len(),
{
    if grants.len() == 0 {
        Seq::empty()
    } else {
        let earlier = authorized_transfers(grants.drop_last(), pending, percentage);
        let (issue_at, grant) = grants.last();
        if !has_key(pending, issue_at) && grant.settled(percentage) != 0 {
            earlier.push((issue_at, grant.settled(percentage) as u128))
        } else {
            earlier
        }
    }
}

/// The transfers of an authorization sum to what it pays out.
pub proof fn lemma_authorized_transfers_total(grants: Grants, pending: Transfers, percentage: u32)
    requires
        percentage <= BASIS_POINTS,
    ensures
        transferred(authorized_transfers(grants, pending, percentage)) == total_of(
            authorized_amounts(grants, pending, percentage),
        ),
        authorized_transfers(grants, pending, percentage).len() <= grants.len(),
    decreases grants.len(),
{
    let list = authorized_transfers(grants, pending, percentage);
    if grants.len() == 0 {
        assert(transfer_amounts(list) =~= Seq::empty());
    } else {
        let earlier = authorized_transfers(grants.drop_last(), pending, percentage);
        lemma_authorized_transfers_total(grants.drop_last(), pending, percentage);
        assert(authorized_amounts(grants, pending, percentage).drop_last() =~= authorized_amounts(
            grants.drop_last(),
            pending,
            percentage,
        ));
        let (issue_at, grant) = grants.last();
        lemma_share_is_bounded(grant.order_amount, percentage, BASIS_POINTS);
        if !has_key(pending, issue_at) && grant.settled(percentage) != 0 {
            assert(transfer_amounts(list) =~= transfer_amounts(earlier).push(
                grant.settled(percentage),
            ));
            lemma_total_push(transfer_amounts(earlier), grant.settled(percentage));
        }
    }
}

/// An authorization keeps the grants well formed, and what it transfers is
/// what the grants owe less afterwards.
pub proof fn lemma_authorize_grants(
    grants: Grants,
    pending: Transfers,
    percentage: u32,
    config: Config,
)
    requires
        grants_wf(grants, config),
        percentage <= BASIS_POINTS,
    ensures
        grants_wf(authorize_grants(grants, pending, percentage), config),
        outstanding_in(authorize_grants(grants, pending, percentage)) + transferred(
            authorized_transfers(grants, pending, percentage),
        ) == outstanding_in(grants),
{
    let after = authorize_grants(grants, pending, percentage);
    assert forall|i: int| 0 <= i < after.len() implies (#[trigger] after[i]).1.wf()
        && config.covers(after[i].0) && owed_amounts(after)[i] + authorized_amounts(
        grants,
        pending,
        percentage,
    )[i] == owed_amounts(grants)[i] by {
        assert(grants[i].1.wf() && config.covers(grants[i].0));
        lemma_share_is_bounded(grants[i].1.order_amount, percentage, BASIS_POINTS);
    }
    assert forall|i: int, j: int| 0 <= i < j < after.len() implies (#[trigger] after[i]).0 != (
    #[trigger] after[j]).0 by {
        assert(grants[i].0 != grants[j].0);
    }
    lemma_total_is_additive(
        owed_amounts(after),
        authorized_amounts(grants, pending, percentage),
        owed_amounts(grants),
    );
    lemma_authorized_transfers_total(grants, pending, percentage);
}

/// Pays out every grant without a transfer in flight and returns the
/// transfers to send.
pub fn authorize_orders(
    grants: &mut Vec<(u32, Grant)>,
    pending: &Vec<(u32, u128)>,
    percentage: u32,
) -> (transfers: Vec<(u32, u128)>)
    requires
        each_wf(old(grants)@),
        percentage <= BASIS_POINTS,
    ensures
        final(grants)@ == authorize_grants(old(grants)@, pending@, percentage),
        transfers@ == authorized_transfers(old(grants)@, pending@, percentage),
{
    let mut transfers: Vec<(u32, u128)> = Vec::new();
    let mut i: usize = 0;
    let ghost before = grants@;
    let ghost after = authorize_grants(before, pending@, percentage);
    assert(before.take(0) =~= Seq::empty());
    while i < grants.len()
        invariant
            before == old(grants)@,
            after == authorize_grants(before, pending@, percentage),
            each_wf(before),
            percentage <= BASIS_POINTS,
            grants@.len() == before.len(),
            0 <= i <= before.len(),
            forall|j: int| 0 <= j < i ==> #[trigger] grants@[j] == after[j],
            forall|j: int| i <= j < before.len() ==> #[trigger] grants@[j] == before[j],
            transfers@ == authorized_transfers(before.take(i as int), pending@, percentage),
        decreases before.len() - i,
    {
        let issue_at: u32 = grants[i].0;
        proof {
            assert(before.take(i + 1).drop_last() =~= before.take(i as int));
            assert(before.take(i + 1).last() == before[i as int]);
            assert(before[i as int].1.wf());
            lemma_share_is_bounded(before[i as int].1.order_amount, percentage, BASIS_POINTS);
        }
        if !is_pending(pending, issue_at) {
            let order: u128 = grants[i].1.order_amount;
            if order != 0 {
                let authorized: u128 = share(order, percentage, BASIS_POINTS);
                if authorized != 0 {
                    grants[i].1.claimed_amount = grants[i].1.claimed_amount + authorized;
                    transfers.push((issue_at, authorized));
                    grants[i].1.order_amount = 0;
                }
            } else {
                assert(share_of(0, percentage, BASIS_POINTS) == 0) by (nonlinear_arith)
                    requires
                        BASIS_POINTS == 10_000,
                ;
            }
        }
        i += 1;
    }
    proof {
        assert(before.take(i as int) =~= before);
        assert(grants@ =~= after);
    }
    transfers
}

/// The grants of an account after its orders were declined: every grant
/// without a transfer in flight loses its order.
pub open spec fn decline_grants(grants: Grants, pending: Transfers) -> Grants {
    Seq::new(
        grants.len(),
        |i: int|
            if has_key(pending, grants[i].0) {
                grants[i]
            } else {
                (grants[i].0, grants[i].1.declined())
            },
    )
}

/// Declining keeps the grants well formed and what they owe.
pub proof fn lemma_decline_grants(grants: Grants, pending: Transfers, config: Config)
    requires
        grants_wf(grants, config),
    ensures
        grants_wf(decline_grants(grants, pending), config),
        outstanding_in(decline_grants(grants, pending)) == outstanding_in(grants),
{
    let after = decline_grants(grants, pending);
    assert forall|i: int| 0 <= i < after.len() implies (#[trigger] after[i]).1.wf()
        && config.covers(after[i].0) by {
        assert(grants[i].1.wf() && config.covers(grants[i].0));
    }
    assert forall|i: int, j: int| 0 <= i < j < after.len() implies (#[trigger] after[i]).0 != (
    #[trigger] after[j]).0 by {
        assert(grants[i].0 != grants[j].0);
    }
    assert(owed_amounts(after) =~= owed_amounts(grants));
}

/// Drops the order of every grant without a transfer in flight.
pub fn decline_grant_orders(grants: &mut Vec<(u32, Grant)>, pending: &Vec<(u32, u128)>)
    ensures
        final(grants)@ == decline_grants(old(grants)@, pending@),
{
    let mut i: usize = 0;
    let ghost before = grants@;
    let ghost after = decline_grants(before, pending@);
    while i < grants.len()
        invariant
            before == old(grants)@,
            after == decline_grants(before, pending@),
            grants@.len() == before.len(),
            0 <= i <= before.len(),
            forall|j: int| 0 <= j < i ==> #[trigger] grants@[j] == after[j],
            forall|j: int| i <= j < before.len() ==> #[trigger] grants@[j] == before[j],
        decreases before.len() - i,
    {
        let issue_at: u32 = grants[i].0;
        if !is_pending(pending, issue_at) {
            grants[i].1.order_amount = 0;
        }
        i += 1;
    }
    proof {
        assert(grants@ =~= after);
    }
}

/// Whether every grant of the account can be terminated at `now`.
pub open spec fn all_can_terminate(grants: Grants, config: Config, now: u32, terminate_at: u32)
    -> bool {
    forall|i: int|
        0 <= i < grants.len() ==> (#[trigger] grants[i]).1.can_terminate(
            grants[i].0,
            config,
            now,
            terminate_at,
        )
}

/// The grants of an account after its termination: every grant is
/// terminated as it is left by the declining of the account's orders.
pub open spec fn terminate_grants(
    grants: Grants,
    pending: Transfers,
    config: Config,
    now: u32,
    terminate_at: u32,
) -> Grants {
    let declined = decline_grants(grants, pending);
    Seq::new(
        grants.len(),
        |i: int|
            (
                declined[i].0,
                declined[i].1.after_termination(declined[i].0, config, now, terminate_at),
            ),
    )
}

/// What the termination of an account gives back from each grant.
pub open spec fn recovered_amounts(
    grants: Grants,
    pending: Transfers,
    config: Config,
    now: u32,
    terminate_at: u32,
) -> Seq<nat> {
    let declined = decline_grants(grants, pending);
    Seq::new(
        grants.len(),
        |i: int| declined[i].1.recovered_by(declined[i].0, config, now, terminate_at),
    )
}

/// What the termination of an account gives back to the spare pool.
pub open spec fn recovered_in(
    grants: Grants,
    pending: Transfers,
    config: Config,
    now: u32,
    terminate_at: u32,
) -> nat {
    total_of(recovered_amounts(grants, pending, config, now, terminate_at))
}

/// A termination keeps the grants well formed, and what it gives back is
/// what the grants owe less afterwards.
pub proof fn lemma_terminate_grants(
    grants: Grants,
    pending: Transfers,
    config: Config,
    now: u32,
    terminate_at: u32,
)
    requires
        grants_wf(grants, config),
    ensures
        grants_wf(terminate_grants(grants, pending, config, now, terminate_at), config),
        outstanding_in(terminate_grants(grants, pending, config, now, terminate_at))
            + recovered_in(grants, pending, config, now, terminate_at) == outstanding_in(grants),
{
    let after = terminate_grants(grants, pending, config, now, terminate_at);
    let declined = decline_grants(grants, pending);
    let recovered = recovered_amounts(grants, pending, config, now, terminate_at);
    assert forall|i: int| 0 <= i < after.len() implies (#[trigger] after[i]).1.wf()
        && config.covers(after[i].0) && owed_amounts(after)[i] + recovered[i] == owed_amounts(
        grants,
    )[i] by {
        assert(grants[i].1.wf() && config.covers(grants[i].0));
        lemma_termination_keeps_grant(declined[i].1, declined[i].0, config, now, terminate_at);
    }
    assert forall|i: int, j: int| 0 <= i < j < after.len() implies (#[trigger] after[i]).0 != (
    #[trigger] after[j]).0 by {
        assert(grants[i].0 != grants[j].0);
    }
    lemma_total_is_additive(owed_amounts(after), recovered, owed_amounts(grants));
}

/// Whether every grant of the account can be terminated at `now`.
pub fn grants_terminable(
    grants: &Vec<(u32, Grant)>,
    config: &Config,
    now: u32,
    terminate_at: u32,
) -> (ok: bool)
    requires
        grants_wf(grants@, *config),
    ensures
        ok == all_can_terminate(grants@, *config, now, terminate_at),
{
    let mut i: usize = 0;
    while i < grants.len()
        invariant
            grants_wf(grants@, *config),
            0 <= i <= grants@.len(),
            forall|j: int|
                0 <= j < i ==> (#[trigger] grants@[j]).1.can_terminate(
                    grants@[j].0,
                    *config,
                    now,
                    terminate_at,
                ),
        decreases grants@.len() - i,
    {
        assert(grants@[i as int].1.wf() && config.covers(grants@[i as int].0));
        if !grants[i].1.is_terminable(grants[i].0, config, now, terminate_at) {
            return false;
        }
        i += 1;
    }
    true
}

/// Declines the orders of the account, terminates every grant, and returns
/// what goes back to the spare pool.
pub fn terminate_all(
    grants: &mut Vec<(u32, Grant)>,
    pending: &Vec<(u32, u128)>,
    config: &Config,
    now: u32,
    terminate_at: u32,
) -> (recovered: u128)
    requires
        grants_wf(old(grants)@, *config),
        all_can_terminate(old(grants)@, *config, now, terminate_at),
        outstanding_in(old(grants)@) <= u128::MAX,
    ensures
        final(grants)@ == terminate_grants(old(grants)@, pending@, *config, now, terminate_at),
        recovered == recovered_in(old(grants)@, pending@, *config, now, terminate_at),
{
    let mut recovered: u128 = 0;
    let mut i: usize = 0;
    let ghost before = grants@;
    let ghost after = terminate_grants(before, pending@, *config, now, terminate_at);
    let ghost amounts = recovered_amounts(before, pending@, *config, now, terminate_at);
    proof {
        assert(amounts.take(0) =~= Seq::empty());
        lemma_terminate_grants(before, pending@, *config, now, terminate_at);
    }
    while i < grants.len()
        invariant
            before == old(grants)@,
            after == terminate_grants(before, pending@, *config, now, terminate_at),
            amounts == recovered_amounts(before, pending@, *config, now, terminate_at),
            grants_wf(before, *config),
            all_can_terminate(before, *config, now, terminate_at),
            total_of(amounts) <= u128::MAX,
            grants@.len() == before.len(),
            0 <= i <= before.len(),
            forall|j: int| 0 <= j < i ==> #[trigger] grants@[j] == after[j],
            forall|j: int| i <= j < before.len() ==> #[trigger] grants@[j] == before[j],
            recovered == total_of(amounts.take(i as int)),
        decreases before.len() - i,
    {
        let issue_at: u32 = grants[i].0;
        proof {
            lemma_total_take(amounts, i as int);
            lemma_total_prefix(amounts, i + 1);
            assert(before[i as int].1.wf() && config.covers(before[i as int].0));
            assert(before[i as int].1.can_terminate(issue_at, *config, now, terminate_at));
        }
        if !is_pending(pending, issue_at) {
            grants[i].1.order_amount = 0;
        }
        let mut grant: Grant = grants[i].1;
        let unvested: u128 = grant.terminate(issue_at, config, now, terminate_at);
        grants[i].1 = grant;
        recovered = recovered + unvested;
        i += 1;
    }
    proof {
        assert(amounts.take(i as int) =~= amounts);
        assert(grants@ =~= after);
    }
    recovered
}

} // verus!
