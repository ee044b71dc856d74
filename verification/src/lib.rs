//! A token-vesting ledger: per-beneficiary grants that unlock linearly after a
//! cliff, withdrawal orders raised against the unlocked part, and their
//! settlement by buyback or by an external transfer that is reconciled later.

use vstd::prelude::*;

pub mod account;
pub mod auth;
pub mod authorize;
pub mod common;
pub mod config;
pub mod context;
pub mod error;
pub mod event;
pub mod ft_receiver;
pub mod grant;
pub mod init;
pub mod issuance;
pub mod laws;
pub mod ledger;
pub mod model;
pub mod query;
pub mod reconcile;
pub mod restore;
pub mod settlement;
pub mod termination;
pub mod validity;
pub mod vesting;

pub use auth::Role;

use crate::model::{distinct_keys, total_of};

verus! {

/// The two durations, in seconds, that shape every grant of a ledger.
#[derive(Clone, Copy, Debug, PartialEq, Eq)]
pub struct Config {
    pub cliff_duration: u32,
    pub vesting_duration: u32,
}

/// One grant of a beneficiary, identified by the second it was issued at.
#[derive(Clone, Copy, Debug, PartialEq, Eq)]
pub struct Grant {
    pub total_amount: u128,
    pub claimed_amount: u128,
    pub order_amount: u128,
    pub terminated_at: Option<u32>,
}

/// The grants of one beneficiary, each paired with its issuance second.
#[derive(Clone, Debug, PartialEq, Eq)]
pub struct Account {
    pub grants: Vec<(u32, Grant)>,
}

/// The ledger: accounts by beneficiary, the pool of unassigned funds, and the
/// transfers that are in flight.
#[derive(Clone, Debug, PartialEq, Eq)]
pub struct Contract {
    pub token_id: String,
    pub accounts: Vec<(String, Account)>,
    pub config: Config,
    pub spare_balance: u128,
    pub pending_transfers: Vec<(String, Vec<(u32, u128)>)>,
}

/// The text of an account name.
pub type Name = Seq<char>;

/// The grants of one account, by issuance second.
pub type Grants = Seq<(u32, Grant)>;

/// The amounts in flight for one account, by issuance second.
pub type Transfers = Seq<(u32, u128)>;

/// What a ledger holds, as plain sequences.
pub struct LedgerView {
    pub token_id: Name,
    pub accounts: Seq<(Name, Grants)>,
    pub config: Config,
    pub spare_balance: u128,
    pub pending_transfers: Seq<(Name, Transfers)>,
}

impl View for Account {
    type V = Grants;

    open spec fn view(&self) -> Grants {
        self.grants@
    }
}

/// The accounts as names and grant lists.
pub open spec fn accounts_view(accounts: Seq<(String, Account)>) -> Seq<(Name, Grants)> {
    Seq::new(accounts.len(), |i: int| (accounts[i].0@, accounts[i].1@))
}

/// The pending-transfer ledger as names and transfer lists.
pub open spec fn pending_view(pending: Seq<(String, Vec<(u32, u128)>)>) -> Seq<(Name, Transfers)> {
    Seq::new(pending.len(), |i: int| (pending[i].0@, pending[i].1@))
}

/// The texts of the names.
pub open spec fn names_view(names: Seq<String>) -> Seq<Name> {
    Seq::new(names.len(), |i: int| names[i]@)
}

impl View for Contract {
    type V = LedgerView;

    open spec fn view(&self) -> LedgerView {
        LedgerView {
            token_id: self.token_id@,
            accounts: accounts_view(self.accounts@),
            config: self.config,
            spare_balance: self.spare_balance,
            pending_transfers: pending_view(self.pending_transfers@),
        }
    }
}

impl Config {
    /// Whether the vesting of a grant issued at `issue_at` ends at a second
    /// that a timestamp can hold.
    pub open spec fn covers(&self, issue_at: u32) -> bool {
        issue_at + self.cliff_duration + self.vesting_duration <= u32::MAX
    }
}

impl Grant {
    /// What has left the pool toward the beneficiary and what is on order do
    /// not exceed the grant.
    pub open spec fn wf(&self) -> bool {
        self.claimed_amount + self.order_amount <= self.total_amount
    }

    /// The part of the grant that has not left the pool.
    pub open spec fn owed(&self) -> nat {
        if self.total_amount >= self.claimed_amount {
            (self.total_amount - self.claimed_amount) as nat
        } else {
            0
        }
    }
}

/// Whether the grants of one account are well formed: issued at distinct
/// seconds that the configuration covers, each within its own bounds.
pub open spec fn grants_wf(grants: Grants, config: Config) -> bool {
    &&& distinct_keys(grants)
    &&& forall|i: int|
        0 <= i < grants.len() ==> (#[trigger] grants[i]).1.wf() && config.covers(grants[i].0)
}

/// What each grant of an account still owes.
pub open spec fn owed_amounts(grants: Grants) -> Seq<nat> {
    Seq::new(grants.len(), |i: int| grants[i].1.owed())
}

/// What the grants of one account still owe together.
pub open spec fn outstanding_in(grants: Grants) -> nat {
    total_of(owed_amounts(grants))
}

/// What each account is still owed.
pub open spec fn outstanding_amounts(accounts: Seq<(Name, Grants)>) -> Seq<nat> {
    Seq::new(accounts.len(), |i: int| outstanding_in(accounts[i].1))
}

/// What all grants of the ledger still owe together.
pub open spec fn outstanding(accounts: Seq<(Name, Grants)>) -> nat {
    total_of(outstanding_amounts(accounts))
}

/// The amounts of a transfer list.
pub open spec fn transfer_amounts(transfers: Transfers) -> Seq<nat> {
    Seq::new(transfers.len(), |i: int| transfers[i].1 as nat)
}

/// The sum of a transfer list.
pub open spec fn transferred(transfers: Transfers) -> nat {
    total_of(transfer_amounts(transfers))
}

/// What is in flight for each account.
pub open spec fn in_flight_amounts(pending: Seq<(Name, Transfers)>) -> Seq<nat> {
    Seq::new(pending.len(), |i: int| transferred(pending[i].1))
}

/// What is in flight on the whole ledger.
pub open spec fn in_flight(pending: Seq<(Name, Transfers)>) -> nat {
    total_of(in_flight_amounts(pending))
}

impl LedgerView {
    /// Everything the ledger answers for: the spare pool, what the grants
    /// still owe, and what is in flight.
    pub open spec fn holdings(&self) -> nat {
        (self.spare_balance + outstanding(self.accounts) + in_flight(self.pending_transfers)) as nat
    }

    /// The invariant of the ledger: one account per beneficiary, each with
    /// well-formed grants; one pending list per beneficiary; and holdings
    /// that fit the 128 bits in which balances are kept.
    pub open spec fn wf(&self) -> bool {
        &&& distinct_keys(self.accounts)
        &&& forall|i: int|
            0 <= i < self.accounts.len() ==> grants_wf(
                (#[trigger] self.accounts[i]).1,
                self.config,
            )
        &&& distinct_keys(self.pending_transfers)
        &&& self.holdings() <= u128::MAX
    }
}

} // verus!
