use vstd::prelude::*;
use crate::model::{
    distinct_keys, has_key, is_first, lemma_first_is_position, lemma_total_bounds_each,
    lemma_total_push, lemma_total_update, position, value_of,
};
use crate::{
    accounts_view, grants_wf, in_flight, in_flight_amounts, outstanding, outstanding_amounts,
    outstanding_in, pending_view, transferred, Account, Config, Contract, Grant, Grants, Name,
    Transfers,
};

verus! {

/// The grants of the account, none where there is no such account.
pub open spec fn grants_of(accounts: Seq<(Name, Grants)>, id: Name) -> Grants {
    match value_of(accounts, id) {
        Some(grants) => grants,
        None => Seq::empty(),
    }
}

/// The transfers in flight for the account.
pub open spec fn pending_for(pending: Seq<(Name, Transfers)>, id: Name) -> Transfers {
    match value_of(pending, id) {
        Some(transfers) => transfers,
        None => Seq::empty(),
    }
}

/// Whether the beneficiary has a grant issued at that second.
pub open spec fn has_grant(accounts: Seq<(Name, Grants)>, id: Name, issue_at: u32) -> bool {
    has_key(grants_of(accounts, id), issue_at)
}

/// Whether every account has well-formed grants.
pub open spec fn accounts_wf(accounts: Seq<(Name, Grants)>, config: Config) -> bool {
    &&& distinct_keys(accounts)
    &&& forall|i: int| 0 <= i < accounts.len() ==> grants_wf((#[trigger] accounts[i]).1, config)
}

/// Replacing the grants of one account by well-formed ones keeps the
/// accounts well formed, and changes what is outstanding by the difference.
pub proof fn lemma_replace_grants(
    accounts: Seq<(Name, Grants)>,
    index: int,
    grants: Grants,
    config: Config,
)
    requires
        accounts_wf(accounts, config),
        0 <= index < accounts.len(),
        grants_wf(grants, config),
    ensures
        accounts_wf(accounts.update(index, (accounts[index].0, grants)), config),
        outstanding(accounts.update(index, (accounts[index].0, grants))) + outstanding_in(
            accounts[index].1,
        ) == outstanding(accounts) + outstanding_in(grants),
        outstanding_in(accounts[index].1) <= outstanding(accounts),
{
    let after = accounts.update(index, (accounts[index].0, grants));
    assert forall|i: int, j: int| 0 <= i < j < after.len() implies (#[trigger] after[i]).0 != (
    #[trigger] after[j]).0 by {
        assert(accounts[i].0 != accounts[j].0);
    }
    assert forall|i: int| 0 <= i < after.len() implies grants_wf((#[trigger] after[i]).1, config) by {
        assert(grants_wf(accounts[i].1, config));
    }
    assert(outstanding_amounts(after) =~= outstanding_amounts(accounts).update(
        index,
        outstanding_in(grants),
    ));
    lemma_total_update(outstanding_amounts(accounts), index, outstanding_in(grants));
    lemma_total_bounds_each(outstanding_amounts(accounts), index);
}

/// Adding an account under a new name keeps the accounts well formed, and
/// adds what its grants owe to what is outstanding.
pub proof fn lemma_add_account(
    accounts: Seq<(Name, Grants)>,
    id: Name,
    grants: Grants,
    config: Config,
)
    requires
        accounts_wf(accounts, config),
        !has_key(accounts, id),
        grants_wf(grants, config),
    ensures
        accounts_wf(accounts.push((id, grants)), config),
        outstanding(accounts.push((id, grants))) == outstanding(accounts) + outstanding_in(grants),
{
    let after = accounts.push((id, grants));
    assert forall|i: int, j: int| 0 <= i < j < after.len() implies (#[trigger] after[i]).0 != (
    #[trigger] after[j]).0 by {
        if j < accounts.len() {
            assert(accounts[i].0 != accounts[j].0);
        } else {
            assert(accounts[i].0 != id);
        }
    }
    assert forall|i: int| 0 <= i < after.len() implies grants_wf((#[trigger] after[i]).1, config) by {
        if i < accounts.len() {
            assert(grants_wf(accounts[i].1, config));
        }
    }
    assert(outstanding_amounts(after) =~= outstanding_amounts(accounts).push(
        outstanding_in(grants),
    ));
    lemma_total_push(outstanding_amounts(accounts), outstanding_in(grants));
}

/// Replacing the transfers of one account changes what is in flight by the
/// difference.
pub proof fn lemma_replace_transfers(
    pending: Seq<(Name, Transfers)>,
    index: int,
    transfers: Transfers,
)
    requires
        distinct_keys(pending),
        0 <= index < pending.len(),
    ensures
        distinct_keys(pending.update(index, (pending[index].0, transfers))),
        in_flight(pending.update(index, (pending[index].0, transfers))) + transferred(
            pending[index].1,
        ) == in_flight(pending) + transferred(transfers),
{
    let after = pending.update(index, (pending[index].0, transfers));
    assert forall|i: int, j: int| 0 <= i < j < after.len() implies (#[trigger] after[i]).0 != (
    #[trigger] after[j]).0 by {
        assert(pending[i].0 != pending[j].0);
    }
    assert(in_flight_amounts(after) =~= in_flight_amounts(pending).update(
        index,
        transferred(transfers),
    ));
    lemma_total_update(in_flight_amounts(pending), index, transferred(transfers));
}

/// Adding the transfers of an account under a new name adds them to what is
/// in flight.
pub proof fn lemma_add_transfers(pending: Seq<(Name, Transfers)>, id: Name, transfers: Transfers)
    requires
        distinct_keys(pending),
        !has_key(pending, id),
    ensures
        distinct_keys(pending.push((id, transfers))),
        in_flight(pending.push((id, transfers))) == in_flight(pending) + transferred(transfers),
{
    let after = pending.push((id, transfers));
    assert forall|i: int, j: int| 0 <= i < j < after.len() implies (#[trigger] after[i]).0 != (
    #[trigger] after[j]).0 by {
        if j < pending.len() {
            assert(pending[i].0 != pending[j].0);
        } else {
            assert(pending[i].0 != id);
        }
    }
    assert(in_flight_amounts(after) =~= in_flight_amounts(pending).push(transferred(transfers)));
    lemma_total_push(in_flight_amounts(pending), transferred(transfers));
}

/// Nothing is in flight where no transfer is pending.
pub proof fn lemma_nothing_in_flight()
    ensures
        in_flight(Seq::<(Name, Transfers)>::empty()) == 0,
        distinct_keys(Seq::<(Name, Transfers)>::empty()),
{
    assert(in_flight_amounts(Seq::<(Name, Transfers)>::empty()) =~= Seq::<nat>::empty());
}

/// Where the first entry under a name is, if there is one.
pub fn find_name<V>(entries: &Vec<(String, V)>, name: &String) -> (at: Option<usize>)
    ensures
        match at {
            Some(index) => {
                &&& index < entries@.len()
                &&& entries@[index as int].0@ == name@
                &&& forall|j: int| 0 <= j < index ==> (#[trigger] entries@[j]).0@ != name@
            },
            None => forall|j: int| 0 <= j < entries@.len() ==> (#[trigger] entries@[j]).0@ != name@,
        },
{
    let mut i: usize = 0;
    while i < entries.len()
        invariant
            0 <= i <= entries@.len(),
            forall|j: int| 0 <= j < i ==> (#[trigger] entries@[j]).0@ != name@,
        decreases entries@.len() - i,
    {
        if entries[i].0 == *name {
            return Some(i);
        }
        i += 1;
    }
    None
}

/// Where the grant issued at `issue_at` is, if there is one.
pub fn find_grant(grants: &Vec<(u32, Grant)>, issue_at: u32) -> (at: Option<usize>)
    ensures
        match at {
            Some(index) => is_first(grants@, issue_at, index as int) && has_key(grants@, issue_at)
                && position(grants@, issue_at) == index,
            None => !has_key(grants@, issue_at),
        },
{
    let mut i: usize = 0;
    while i < grants.len()
        invariant
            0 <= i <= grants@.len(),
            forall|j: int| 0 <= j < i ==> (#[trigger] grants@[j]).0 != issue_at,
        decreases grants@.len() - i,
    {
        if grants[i].0 == issue_at {
            proof {
                lemma_first_is_position(grants@, issue_at, i as int);
            }
            return Some(i);
        }
        i += 1;
    }
    None
}

/// Where the transfer for the grant issued at `issue_at` is, if there is one.
pub fn find_transfer(transfers: &Vec<(u32, u128)>, issue_at: u32) -> (at: Option<usize>)
    ensures
        match at {
            Some(index) => is_first(transfers@, issue_at, index as int) && has_key(
                transfers@,
                issue_at,
            ) && position(transfers@, issue_at) == index,
            None => !has_key(transfers@, issue_at),
        },
{
    let mut i: usize = 0;
    while i < transfers.len()
        invariant
            0 <= i <= transfers@.len(),
            forall|j: int| 0 <= j < i ==> (#[trigger] transfers@[j]).0 != issue_at,
        decreases transfers@.len() - i,
    {
        if transfers[i].0 == issue_at {
            proof {
                lemma_first_is_position(transfers@, issue_at, i as int);
            }
            return Some(i);
        }
        i += 1;
    }
    None
}

impl Contract {
    /// Where the account of the beneficiary is, if there is one.
    pub fn find_account(&self, account_id: &String) -> (at: Option<usize>)
        ensures
            match at {
                Some(index) => {
                    &&& index < self.accounts@.len()
                    &&& has_key(self@.accounts, account_id@)
                    &&& position(self@.accounts, account_id@) == index
                    &&& self@.accounts[index as int].0 == account_id@
                    &&& grants_of(self@.accounts, account_id@) == self.accounts@[index as int].1@
                },
                None => !has_key(self@.accounts, account_id@) && grants_of(
                    self@.accounts,
                    account_id@,
                ) == Seq::<(u32, Grant)>::empty(),
            },
    {
        let at = find_name(&self.accounts, account_id);
        proof {
            let view = self@.accounts;
            match at {
                Some(index) => {
                    assert forall|j: int| 0 <= j < index implies (#[trigger] view[j]).0
                        != account_id@ by {
                        assert(self.accounts@[j].0@ != account_id@);
                    }
                    lemma_first_is_position(view, account_id@, index as int);
                },
                None => {
                    assert forall|j: int| 0 <= j < view.len() implies (#[trigger] view[j]).0
                        != account_id@ by {
                        assert(self.accounts@[j].0@ != account_id@);
                    }
                },
            }
        }
        at
    }

    /// Where the transfers in flight for the beneficiary are, if there are any.
    pub fn find_pending(&self, account_id: &String) -> (at: Option<usize>)
        ensures
            match at {
                Some(index) => {
                    &&& index < self.pending_transfers@.len()
                    &&& has_key(self@.pending_transfers, account_id@)
                    &&& position(self@.pending_transfers, account_id@) == index
                    &&& self@.pending_transfers[index as int].0 == account_id@
                    &&& pending_for(self@.pending_transfers, account_id@)
                        == self.pending_transfers@[index as int].1@
                },
                None => !has_key(self@.pending_transfers, account_id@) && pending_for(
                    self@.pending_transfers,
                    account_id@,
                ) == Seq::<(u32, u128)>::empty(),
            },
    {
        let at = find_name(&self.pending_transfers, account_id);
        proof {
            let view = self@.pending_transfers;
            match at {
                Some(index) => {
                    assert forall|j: int| 0 <= j < index implies (#[trigger] view[j]).0
                        != account_id@ by {
                        assert(self.pending_transfers@[j].0@ != account_id@);
                    }
                    lemma_first_is_position(view, account_id@, index as int);
                },
                None => {
                    assert forall|j: int| 0 <= j < view.len() implies (#[trigger] view[j]).0
                        != account_id@ by {
                        assert(self.pending_transfers@[j].0@ != account_id@);
                    }
                },
            }
        }
        at
    }
}

/// A copy of the grants.
pub fn copy_grants(grants: &Vec<(u32, Grant)>) -> (copy: Vec<(u32, Grant)>)
    ensures
        copy@ == grants@,
{
    let mut copy: Vec<(u32, Grant)> = Vec::new();
    let mut i: usize = 0;
    while i < grants.len()
        invariant
            0 <= i <= grants@.len(),
            copy@ == grants@.take(i as int),
        decreases grants@.len() - i,
    {
        copy.push(grants[i]);
        assert(copy@ =~= grants@.take(i + 1));
        i += 1;
    }
    assert(grants@.take(i as int) =~= grants@);
    copy
}

/// A copy of the transfers.
pub fn copy_transfers(transfers: &Vec<(u32, u128)>) -> (copy: Vec<(u32, u128)>)
    ensures
        copy@ == transfers@,
{
    let mut copy: Vec<(u32, u128)> = Vec::new();
    let mut i: usize = 0;
    while i < transfers.len()
        invariant
            0 <= i <= transfers@.len(),
            copy@ == transfers@.take(i as int),
        decreases transfers@.len() - i,
    {
        copy.push(transfers[i]);
        assert(copy@ =~= transfers@.take(i + 1));
        i += 1;
    }
    assert(transfers@.take(i as int) =~= transfers@);
    copy
}

/// A copy of the record of what is in flight.
pub fn copy_pending(pending: &Vec<(String, Vec<(u32, u128)>)>) -> (copy: Vec<
    (String, Vec<(u32, u128)>),
>)
    ensures
        pending_view(copy@) == pending_view(pending@),
{
    let mut copy: Vec<(String, Vec<(u32, u128)>)> = Vec::new();
    let mut j: usize = 0;
    while j < pending.len()
        invariant
            0 <= j <= pending@.len(),
            copy@.len() == j,
            forall|k: int|
                0 <= k < j ==> (#[trigger] copy@[k]).0@ == pending@[k].0@ && copy@[k].1@
                    == pending@[k].1@,
        decreases pending@.len() - j,
    {
        let name = pending[j].0.clone();
        let transfers = copy_transfers(&pending[j].1);
        copy.push((name, transfers));
        j += 1;
    }
    proof {
        assert(pending_view(copy@) =~= pending_view(pending@));
    }
    copy
}

impl Contract {
    /// A copy of the ledger as it stands.
    pub fn snapshot(&self) -> (copy: Contract)
        ensures
            copy@ == self@,
    {
        let mut accounts: Vec<(String, Account)> = Vec::new();
        let mut i: usize = 0;
        while i < self.accounts.len()
            invariant
                0 <= i <= self.accounts@.len(),
                accounts@.len() == i,
                forall|k: int|
                    0 <= k < i ==> (#[trigger] accounts@[k]).0@ == self.accounts@[k].0@
                        && accounts@[k].1@ == self.accounts@[k].1@,
            decreases self.accounts@.len() - i,
        {
            let name = self.accounts[i].0.clone();
            let grants = copy_grants(&self.accounts[i].1.grants);
            accounts.push((name, Account { grants }));
            i += 1;
        }
        let pending_transfers = copy_pending(&self.pending_transfers);
        proof {
            assert(accounts_view(accounts@) =~= accounts_view(self.accounts@));
        }
        Contract {
            token_id: self.token_id.clone(),
            accounts,
            config: self.config,
            spare_balance: self.spare_balance,
            pending_transfers,
        }
    }
}

} // verus!
