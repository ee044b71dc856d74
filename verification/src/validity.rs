use vstd::prelude::*;
use crate::ft_receiver::migration_view;
use crate::model::{
    distinct_keys, lemma_total_bounds_each, lemma_total_prefix, lemma_total_take, total_of,
};
use crate::{
    grants_wf, in_flight, in_flight_amounts, outstanding, outstanding_amounts, outstanding_in,
    owed_amounts, transfer_amounts, transferred, Config, Contract, Grant,
};

verus! {

impl Config {
    /// Whether the vesting of a grant issued at `issue_at` ends at a second
    /// that a timestamp can hold.
    pub fn is_covered(&self, issue_at: u32) -> (ok: bool)
        ensures
            ok == self.covers(issue_at),
    {
        let room: u32 = u32::MAX - issue_at;
        self.cliff_duration <= room && self.vesting_duration <= room - self.cliff_duration
    }
}

impl Grant {
    /// Whether what counts as claimed and what is on order do not exceed
    /// the grant.
    pub fn is_well_formed(&self) -> (ok: bool)
        ensures
            ok == self.wf(),
    {
        self.claimed_amount <= self.total_amount && self.order_amount <= self.total_amount
            - self.claimed_amount
    }
}

/// Whether no name occurs twice among the entries.
pub fn names_are_distinct<V>(entries: &Vec<(String, V)>) -> (ok: bool)
    ensures
        ok == (forall|i: int, j: int|
            0 <= i < j < entries@.len() ==> (#[trigger] entries@[i]).0@ != (
            #[trigger] entries@[j]).0@),
{
    let mut j: usize = 0;
    while j < entries.len()
        invariant
            0 <= j <= entries@.len(),
            forall|a: int, b: int|
                0 <= a < b < j ==> (#[trigger] entries@[a]).0@ != (#[trigger] entries@[b]).0@,
        decreases entries@.len() - j,
    {
        let mut i: usize = 0;
        while i < j
            invariant
                0 <= i <= j < entries@.len(),
                forall|a: int| 0 <= a < i ==> (#[trigger] entries@[a]).0@ != entries@[j as int].0@,
            decreases j - i,
        {
            if entries[i].0 == entries[j].0 {
                return false;
            }
            i += 1;
        }
        j += 1;
    }
    true
}

/// Whether the grants of an account are well formed.
pub fn grants_are_well_formed(grants: &Vec<(u32, Grant)>, config: &Config) -> (ok: bool)
    ensures
        ok == grants_wf(grants@, *config),
{
    let mut j: usize = 0;
    while j < grants.len()
        invariant
            0 <= j <= grants@.len(),
            forall|a: int, b: int|
                0 <= a < b < j ==> (#[trigger] grants@[a]).0 != (#[trigger] grants@[b]).0,
            forall|a: int|
                0 <= a < j ==> (#[trigger] grants@[a]).1.wf() && config.covers(grants@[a].0),
        decreases grants@.len() - j,
    {
        if !grants[j].1.is_well_formed() || !config.is_covered(grants[j].0) {
            return false;
        }
        let mut i: usize = 0;
        while i < j
            invariant
                0 <= i <= j < grants@.len(),
                forall|a: int| 0 <= a < i ==> (#[trigger] grants@[a]).0 != grants@[j as int].0,
            decreases j - i,
        {
            if grants[i].0 == grants[j].0 {
                return false;
            }
            i += 1;
        }
        j += 1;
    }
    true
}

/// What the grants of one account still owe together, where 128 bits hold
/// it.
pub fn owed_by(grants: &Vec<(u32, Grant)>) -> (owed: Option<u128>)
    ensures
        match owed {
            Some(amount) => amount == outstanding_in(grants@),
            None => outstanding_in(grants@) > u128::MAX,
        },
{
    let ghost amounts = owed_amounts(grants@);
    let mut owed: u128 = 0;
    let mut i: usize = 0;
    assert(amounts.take(0) =~= Seq::empty());
    while i < grants.len()
        invariant
            amounts == owed_amounts(grants@),
            0 <= i <= grants@.len(),
            owed == total_of(amounts.take(i as int)),
        decreases grants@.len() - i,
    {
        proof {
            lemma_total_take(amounts, i as int);
            lemma_total_prefix(amounts, i + 1);
        }
        let grant: Grant = grants[i].1;
        let rest: u128 = if grant.total_amount >= grant.claimed_amount {
            grant.total_amount - grant.claimed_amount
        } else {
            0
        };
        if rest > u128::MAX - owed {
            return None;
        }
        owed = owed + rest;
        i += 1;
    }
    assert(amounts.take(i as int) =~= amounts);
    Some(owed)
}

/// The sum of the transfers, where 128 bits hold it.
pub fn sum_of(transfers: &Vec<(u32, u128)>) -> (sum: Option<u128>)
    ensures
        match sum {
            Some(amount) => amount == transferred(transfers@),
            None => transferred(transfers@) > u128::MAX,
        },
{
    let ghost amounts = transfer_amounts(transfers@);
    let mut sum: u128 = 0;
    let mut i: usize = 0;
    assert(amounts.take(0) =~= Seq::empty());
    while i < transfers.len()
        invariant
            amounts == transfer_amounts(transfers@),
            0 <= i <= transfers@.len(),
            sum == total_of(amounts.take(i as int)),
        decreases transfers@.len() - i,
    {
        proof {
            lemma_total_take(amounts, i as int);
            lemma_total_prefix(amounts, i + 1);
        }
        let amount: u128 = transfers[i].1;
        if amount > u128::MAX - sum {
            return None;
        }
        sum = sum + amount;
        i += 1;
    }
    assert(amounts.take(i as int) =~= amounts);
    Some(sum)
}

impl Contract {
    /// What all grants of the ledger still owe together, where 128 bits
    /// hold it.
    pub fn outstanding(&self) -> (owed: Option<u128>)
        ensures
            match owed {
                Some(amount) => amount == outstanding(self@.accounts),
                None => outstanding(self@.accounts) > u128::MAX,
            },
    {
        let ghost amounts = outstanding_amounts(self@.accounts);
        let mut owed: u128 = 0;
        let mut i: usize = 0;
        assert(amounts.take(0) =~= Seq::empty());
        while i < self.accounts.len()
            invariant
                amounts == outstanding_amounts(self@.accounts),
                0 <= i <= self.accounts@.len(),
                owed == total_of(amounts.take(i as int)),
            decreases self.accounts@.len() - i,
        {
            proof {
                lemma_total_take(amounts, i as int);
                lemma_total_prefix(amounts, i + 1);
                lemma_total_bounds_each(amounts, i as int);
            }
            let rest: u128 = match owed_by(&self.accounts[i].1.grants) {
                Some(rest) => rest,
                None => {
                    return None;
                },
            };
            if rest > u128::MAX - owed {
                return None;
            }
            owed = owed + rest;
            i += 1;
        }
        assert(amounts.take(i as int) =~= amounts);
        Some(owed)
    }

    /// What is in flight on the whole ledger, where 128 bits hold it.
    pub fn in_flight(&self) -> (sum: Option<u128>)
        ensures
            match sum {
                Some(amount) => amount == in_flight(self@.pending_transfers),
                None => in_flight(self@.pending_transfers) > u128::MAX,
            },
    {
        let ghost amounts = in_flight_amounts(self@.pending_transfers);
        let mut sum: u128 = 0;
        let mut i: usize = 0;
        assert(amounts.take(0) =~= Seq::empty());
        while i < self.pending_transfers.len()
            invariant
                amounts == in_flight_amounts(self@.pending_transfers),
                0 <= i <= self.pending_transfers@.len(),
                sum == total_of(amounts.take(i as int)),
            decreases self.pending_transfers@.len() - i,
        {
            proof {
                lemma_total_take(amounts, i as int);
                lemma_total_prefix(amounts, i + 1);
                lemma_total_bounds_each(amounts, i as int);
            }
            let more: u128 = match sum_of(&self.pending_transfers[i].1) {
                Some(more) => more,
                None => {
                    return None;
                },
            };
            if more > u128::MAX - sum {
                return None;
            }
            sum = sum + more;
            i += 1;
        }
        assert(amounts.take(i as int) =~= amounts);
        Some(sum)
    }

    /// Everything the ledger answers for: the spare pool, what the grants
    /// still owe, and what is in flight; where 128 bits hold it.
    pub fn holdings(&self) -> (held: Option<u128>)
        ensures
            match held {
                Some(amount) => amount == self@.holdings(),
                None => self@.holdings() > u128::MAX,
            },
    {
        let owed: u128 = match self.outstanding() {
            Some(owed) => owed,
            None => {
                return None;
            },
        };
        let sent: u128 = match self.in_flight() {
            Some(sent) => sent,
            None => {
                return None;
            },
        };
        if owed > u128::MAX - self.spare_balance {
            return None;
        }
        let backed: u128 = self.spare_balance + owed;
        if sent > u128::MAX - backed {
            return None;
        }
        Some(backed + sent)
    }

    /// Whether the ledger can take in `amount` more without answering for
    /// more than 128 bits hold.
    pub fn has_room_for(&self, amount: u128) -> (ok: bool)
        ensures
            ok == (self@.holdings() + amount <= u128::MAX),
    {
        match self.holdings() {
            Some(held) => amount <= u128::MAX - held,
            None => false,
        }
    }

    /// Whether the ledger is well formed: one account per beneficiary, each
    /// with grants for distinct seconds that the configuration covers and
    /// that stay within their bounds; one record of transfers in flight per
    /// beneficiary; and holdings that 128 bits hold.
    pub fn is_well_formed(&self) -> (ok: bool)
        ensures
            ok == self@.wf(),
    {
        if !names_are_distinct(&self.accounts) {
            proof {
                if distinct_keys(self@.accounts) {
                    assert forall|i: int, j: int|
                        0 <= i < j < self.accounts@.len() implies (#[trigger] self.accounts@[i]).0@
                        != (#[trigger] self.accounts@[j]).0@ by {
                        assert(self@.accounts[i].0 != self@.accounts[j].0);
                    }
                }
            }
            return false;
        }
        if !names_are_distinct(&self.pending_transfers) {
            proof {
                if distinct_keys(self@.pending_transfers) {
                    assert forall|i: int, j: int|
                        0 <= i < j < self.pending_transfers@.len() implies (
                    #[trigger] self.pending_transfers@[i]).0@ != (
                    #[trigger] self.pending_transfers@[j]).0@ by {
                        assert(self@.pending_transfers[i].0 != self@.pending_transfers[j].0);
                    }
                }
            }
            return false;
        }
        let mut i: usize = 0;
        while i < self.accounts.len()
            invariant
                0 <= i <= self.accounts@.len(),
                forall|a: int|
                    0 <= a < i ==> grants_wf((#[trigger] self@.accounts[a]).1, self@.config),
            decreases self.accounts@.len() - i,
        {
            if !grants_are_well_formed(&self.accounts[i].1.grants, &self.config) {
                assert(!grants_wf(self@.accounts[i as int].1, self@.config));
                return false;
            }
            i += 1;
        }
        self.holdings().is_some()
    }

    /// Whether the grants can be taken over: of none was more claimed than
    /// it holds, and each was issued at a second that the configuration
    /// covers.
    pub fn can_take_over(&self, grants: &Vec<(String, u32, u128, u128)>) -> (ok: bool)
        ensures
            ok == self@.can_migrate(migration_view(grants@)),
    {
        let mut i: usize = 0;
        while i < grants.len()
            invariant
                0 <= i <= grants@.len(),
                forall|a: int|
                    0 <= a < i ==> (#[trigger] migration_view(grants@)[a]).3 <= migration_view(
                        grants@,
                    )[a].2 && self@.config.covers(migration_view(grants@)[a].1),
            decreases grants@.len() - i,
        {
            if grants[i].3 > grants[i].2 || !self.config.is_covered(grants[i].1) {
                assert(!(migration_view(grants@)[i as int].3 <= migration_view(grants@)[i as int].2
                    && self@.config.covers(migration_view(grants@)[i as int].1)));
                return false;
            }
            i += 1;
        }
        true
    }
}

} // verus!
