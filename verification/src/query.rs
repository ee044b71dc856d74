use vstd::prelude::*;
use crate::grant::GrantView;
use crate::{Config, Contract, Grant, Grants, Name};

verus! {

/// An order that waits to be settled: the beneficiary, the second at which
/// the grant was issued, and the amount on order.
pub type Order = (Name, u32, u128);

/// The orders by the text of the beneficiary's name.
pub open spec fn orders_view(orders: Seq<(String, u32, u128)>) -> Seq<Order> {
    Seq::new(orders.len(), |i: int| (orders[i].0@, orders[i].1, orders[i].2))
}

/// The orders of one account: its grants with something on order, in the
/// order of the grants.
pub open spec fn orders_in(id: Name, grants: Grants) -> Seq<Order>
    decreases grants.len(),
{
    if grants.len() == 0 {
        Seq::empty()
    } else {
        let earlier = orders_in(id, grants.drop_last());
        if grants.last().1.order_amount > 0 {
            earlier.push((id, grants.last().0, grants.last().1.order_amount))
        } else {
            earlier
        }
    }
}

/// The orders of the accounts, account after account.
pub open spec fn orders_of(accounts: Seq<(Name, Grants)>) -> Seq<Order>
    decreases accounts.len(),
{
    if accounts.len() == 0 {
        Seq::empty()
    } else {
        orders_of(accounts.drop_last()) + orders_in(accounts.last().0, accounts.last().1)
    }
}

impl Grant {
    /// The grant as a reader sees it at `now`: what it holds, when its cliff
    /// and its vesting end by the configuration, what has vested, what has
    /// not, and what has vested beyond what was claimed.
    pub open spec fn shown_at(&self, issue_at: u32, config: Config, now: u32) -> GrantView {
        let vested = self.vested_at(issue_at, config, now);
        GrantView {
            issued_at: issue_at,
            cliff_end_at: config.spec_cliff_end(issue_at) as u32,
            vesting_end_at: config.spec_vesting_end(issue_at) as u32,
            total_amount: self.total_amount,
            claimed_amount: self.claimed_amount,
            order_amount: self.order_amount,
            vested_amount: vested as u128,
            not_vested_amount: (self.total_amount - vested) as u128,
            claimable_amount: if vested >= self.claimed_amount {
                (vested - self.claimed_amount) as u128
            } else {
                0
            },
            terminated_at: self.terminated_at,
        }
    }
}

/// The grants of an account as a reader sees them at `now`.
pub open spec fn shown_grants(grants: Grants, config: Config, now: u32) -> Seq<GrantView> {
    Seq::new(grants.len(), |i: int| grants[i].1.shown_at(grants[i].0, config, now))
}

impl Contract {
    /// Forgets what is recorded as in flight.
    pub fn clear_pending_transfers(&mut self)
        requires
            old(self)@.wf(),
        ensures
            final(self)@ == old(self)@.without_pending(),
            final(self)@.wf(),
    {
        proof {
            crate::authorize::lemma_without_pending(self@);
        }
        self.pending_transfers.clear();
        assert(self@.pending_transfers =~= Seq::empty());
    }
}

} // verus!
