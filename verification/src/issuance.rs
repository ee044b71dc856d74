use vstd::prelude::*;
use crate::context::Context;
use crate::error::LedgerError;
use crate::ledger::{find_grant, grants_of, has_grant, lemma_add_account, lemma_replace_grants};
use crate::model::{
    has_key, lemma_position_of_present, lemma_total_prefix, lemma_total_push, lemma_total_take,
    position, total_of, with_value,
};
use crate::{grants_wf, owed_amounts, Account, Contract, Grant, LedgerView, Name};

verus! {

/// A grant as it is created: nothing on order, not terminated, and claimed
/// of it what a migration says was claimed before.
pub open spec fn new_grant(total_amount: u128, claimed_amount: Option<u128>) -> Grant {
    Grant {
        total_amount,
        claimed_amount: match claimed_amount {
            Some(claimed) => claimed,
            None => 0,
        },
        order_amount: 0,
        terminated_at: None,
    }
}

/// The grants to issue, by the text of the beneficiary's name.
pub open spec fn issue_view(grants: Seq<(String, u128)>) -> Seq<(Name, u128)> {
    Seq::new(grants.len(), |i: int| (grants[i].0@, grants[i].1))
}

/// The amounts of the grants to issue.
pub open spec fn requested_amounts(grants: Seq<(Name, u128)>) -> Seq<nat> {
    Seq::new(grants.len(), |i: int| grants[i].1 as nat)
}

/// What the grants to issue take from the spare pool.
pub open spec fn requested(grants: Seq<(Name, u128)>) -> nat {
    total_of(requested_amounts(grants))
}

impl LedgerView {
    /// The ledger with one more grant for the beneficiary, whose account is
    /// opened if there was none.
    pub open spec fn with_grant(self, id: Name, issue_at: u32, grant: Grant) -> LedgerView {
        LedgerView {
            accounts: with_value(
                self.accounts,
                id,
                grants_of(self.accounts, id).push((issue_at, grant)),
            ),
            ..self
        }
    }

    /// The ledger after one grant was issued from the spare pool.
    pub open spec fn issue_one(self, issue_at: u32, id: Name, amount: u128) -> LedgerView {
        LedgerView {
            spare_balance: (self.spare_balance - amount) as u128,
            ..self.with_grant(id, issue_at, new_grant(amount, None))
        }
    }

    /// The ledger after the grants were issued, one after the other.
    pub open spec fn issue_all(self, issue_at: u32, grants: Seq<(Name, u128)>) -> LedgerView
        decreases grants.len(),
    {
        if grants.len() == 0 {
            self
        } else {
            self.issue_all(issue_at, grants.drop_last()).issue_one(
                issue_at,
                grants.last().0,
                grants.last().1,
            )
        }
    }

    /// Whether one of the grants to issue meets a grant that its beneficiary
    /// already has for that second, from before or from earlier in the list.
    pub open spec fn issue_collides(self, issue_at: u32, grants: Seq<(Name, u128)>) -> bool
        decreases grants.len(),
    {
        if grants.len() == 0 {
            false
        } else {
            self.issue_collides(issue_at, grants.drop_last()) || has_grant(
                self.issue_all(issue_at, grants.drop_last()).accounts,
                grants.last().0,
                issue_at,
            )
        }
    }
}

impl LedgerView {
    /// What issuing the grants comes to: a refusal where the spare pool does
    /// not cover them or one of them meets a grant that exists, and otherwise
    /// the ledger with the grants issued.
    pub open spec fn issue(self, issue_at: u32, grants: Seq<(Name, u128)>) -> Result<
        LedgerView,
        LedgerError,
    > {
        if requested(grants) > self.spare_balance {
            Err(LedgerError::InsufficientSpareBalance)
        } else if self.issue_collides(issue_at, grants) {
            Err(LedgerError::DuplicateGrant)
        } else {
            Ok(self.issue_all(issue_at, grants))
        }
    }
}

/// Whether a call ended as expected: refused with the error expected, or
/// done with the ledger as expected.
pub open spec fn settles(
    result: Result<(), LedgerError>,
    after: LedgerView,
    expected: Result<LedgerView, LedgerError>,
) -> bool {
    match expected {
        Ok(ledger) => result is Ok && after == ledger,
        Err(error) => result == Err::<(), LedgerError>(error),
    }
}

/// A new grant for a second at which the beneficiary has none keeps the
/// ledger well formed and adds what the grant owes to the holdings.
pub proof fn lemma_with_grant(ledger: LedgerView, id: Name, issue_at: u32, grant: Grant)
    requires
        ledger.wf(),
        !has_grant(ledger.accounts, id, issue_at),
        grant.wf(),
        ledger.config.covers(issue_at),
        ledger.holdings() + grant.owed() <= u128::MAX,
    ensures
        ledger.with_grant(id, issue_at, grant).wf(),
        ledger.with_grant(id, issue_at, grant).holdings() == ledger.holdings() + grant.owed(),
{
    let grants = grants_of(ledger.accounts, id);
    let more = grants.push((issue_at, grant));
    if has_key(ledger.accounts, id) {
        lemma_position_of_present(ledger.accounts, id);
        assert(grants_wf(ledger.accounts[position(ledger.accounts, id)].1, ledger.config));
    }
    assert forall|i: int, j: int| 0 <= i < j < more.len() implies (#[trigger] more[i]).0 != (
    #[trigger] more[j]).0 by {
        if j < grants.len() {
            assert(grants[i].0 != grants[j].0);
        } else {
            assert(grants[i].0 != issue_at);
        }
    }
    assert forall|i: int| 0 <= i < more.len() implies (#[trigger] more[i]).1.wf()
        && ledger.config.covers(more[i].0) by {
        if i < grants.len() {
            assert(grants[i].1.wf() && ledger.config.covers(grants[i].0));
        }
    }
    assert(owed_amounts(more) =~= owed_amounts(grants).push(grant.owed()));
    lemma_total_push(owed_amounts(grants), grant.owed());
    if has_key(ledger.accounts, id) {
        lemma_replace_grants(
            ledger.accounts,
            position(ledger.accounts, id),
            more,
            ledger.config,
        );
    } else {
        assert(owed_amounts(grants) =~= Seq::empty());
        lemma_add_account(ledger.accounts, id, more, ledger.config);
    }
}

/// Issuing a grant that the spare pool covers keeps the ledger well formed
/// and its holdings.
pub proof fn lemma_issue_one(ledger: LedgerView, issue_at: u32, id: Name, amount: u128)
    requires
        ledger.wf(),
        !has_grant(ledger.accounts, id, issue_at),
        ledger.config.covers(issue_at),
        amount <= ledger.spare_balance,
    ensures
        ledger.issue_one(issue_at, id, amount).wf(),
        ledger.issue_one(issue_at, id, amount).holdings() == ledger.holdings(),
        ledger.issue_one(issue_at, id, amount).spare_balance == ledger.spare_balance - amount,
{
    let poorer = LedgerView { spare_balance: (ledger.spare_balance - amount) as u128, ..ledger };
    lemma_with_grant(poorer, id, issue_at, new_grant(amount, None));
    assert(ledger.issue_one(issue_at, id, amount) == poorer.with_grant(
        id,
        issue_at,
        new_grant(amount, None),
    ));
}

impl Contract {
    /// Creates a grant for the beneficiary, whose account is opened if there
    /// was none. A beneficiary has one grant per second of issuance at most.
    pub fn create_grant_internal(
        &mut self,
        account_id: &String,
        issue_at: u32,
        total_amount: u128,
        claimed_amount: Option<u128>,
    ) -> (result: Result<(), LedgerError>)
        requires
            old(self)@.wf(),
            old(self)@.config.covers(issue_at),
            new_grant(total_amount, claimed_amount).wf(),
            old(self)@.holdings() + new_grant(total_amount, claimed_amount).owed() <= u128::MAX,
        ensures
            final(self)@.wf(),
            has_grant(old(self)@.accounts, account_id@, issue_at) ==> result == Err::<
                (),
                LedgerError,
            >(LedgerError::DuplicateGrant) && final(self)@ == old(self)@,
            !has_grant(old(self)@.accounts, account_id@, issue_at) ==> result is Ok && final(self)@
                == old(self)@.with_grant(
                account_id@,
                issue_at,
                new_grant(total_amount, claimed_amount),
            ),
    {
        let claimed: u128 = match claimed_amount {
            Some(claimed) => claimed,
            None => 0,
        };
        let grant = Grant {
            total_amount,
            claimed_amount: claimed,
            order_amount: 0,
            terminated_at: None,
        };
        let ghost before = self@;
        let ghost grants = grants_of(before.accounts, account_id@);
        match self.find_account(account_id) {
            None => {
                let mut grants: Vec<(u32, Grant)> = Vec::new();
                grants.push((issue_at, grant));
                self.accounts.push((account_id.clone(), Account { grants }));
                proof {
                    lemma_with_grant(before, account_id@, issue_at, grant);
                    assert(self@.accounts =~= before.accounts.push(
                        (account_id@, Seq::empty().push((issue_at, grant))),
                    ));
                }
                Ok(())
            },
            Some(index) => {
                if find_grant(&self.accounts[index].1.grants, issue_at).is_some() {
                    return Err(LedgerError::DuplicateGrant);
                }
                self.accounts[index].1.grants.push((issue_at, grant));
                proof {
                    lemma_with_grant(before, account_id@, issue_at, grant);
                    assert(self@.accounts =~= before.accounts.update(
                        index as int,
                        (account_id@, grants.push((issue_at, grant))),
                    ));
                    assert(self@.pending_transfers =~= before.pending_transfers);
                }
                Ok(())
            },
        }
    }

    /// Issues the grants from the spare pool, all of them or none.
    pub fn issue_internal(
        &mut self,
        ctx: &Context,
        issue_at: u32,
        grants: Vec<(String, u128)>,
    ) -> (result: Result<(), LedgerError>)
        requires
            old(self)@.wf(),
            old(self)@.config.covers(issue_at),
        ensures
            final(self)@.wf(),
            result is Err ==> final(self)@ == old(self)@,
            ctx.paused ==> result == Err::<(), LedgerError>(LedgerError::Paused),
            !ctx.paused ==> settles(
                result,
                final(self)@,
                old(self)@.issue(issue_at, issue_view(grants@)),
            ),
    {
        if ctx.paused {
            return Err(LedgerError::Paused);
        }
        let ghost before = self@;
        let ghost list = issue_view(grants@);
        let ghost amounts = requested_amounts(list);
        let mut total: u128 = 0;
        let mut k: usize = 0;
        assert(amounts.take(0) =~= Seq::empty());
        while k < grants.len()
            invariant
                self@ == before,
                before == old(self)@,
                before.wf(),
                !ctx.paused,
                list == issue_view(grants@),
                amounts == requested_amounts(list),
                0 <= k <= grants@.len(),
                total == total_of(amounts.take(k as int)),
                total <= self.spare_balance,
            decreases grants@.len() - k,
        {
            let amount: u128 = grants[k].1;
            proof {
                lemma_total_take(amounts, k as int);
                lemma_total_prefix(amounts, k + 1);
            }
            if amount > self.spare_balance - total {
                return Err(LedgerError::InsufficientSpareBalance);
            }
            total = total + amount;
            k += 1;
        }
        assert(amounts.take(k as int) =~= amounts);
        let saved = self.snapshot();
        let mut k: usize = 0;
        assert(list.take(0) =~= Seq::empty());
        while k < grants.len()
            invariant
                before == old(self)@,
                saved@ == before,
                before.wf(),
                before.config.covers(issue_at),
                list == issue_view(grants@),
                amounts == requested_amounts(list),
                total_of(amounts) <= before.spare_balance,
                0 <= k <= grants@.len(),
                self@ == before.issue_all(issue_at, list.take(k as int)),
                !before.issue_collides(issue_at, list.take(k as int)),
                self@.wf(),
                self@.config == before.config,
                !ctx.paused,
                self@.spare_balance == before.spare_balance - total_of(amounts.take(k as int)),
            decreases grants@.len() - k,
        {
            let amount: u128 = grants[k].1;
            let ghost reached = self@;
            proof {
                assert(list.take(k + 1).drop_last() =~= list.take(k as int));
                assert(list.take(k + 1).last() == list[k as int]);
                lemma_total_take(amounts, k as int);
                lemma_total_prefix(amounts, k + 1);
            }
            self.spare_balance = self.spare_balance - amount;
            match self.create_grant_internal(&grants[k].0, issue_at, amount, None) {
                Err(_) => {
                    proof {
                        lemma_collision_lasts(before, issue_at, list, k + 1);
                    }
                    *self = saved;
                    return Err(LedgerError::DuplicateGrant);
                },
                Ok(()) => {
                    proof {
                        lemma_issue_one(reached, issue_at, list[k as int].0, amount);
                        assert(self@ == reached.issue_one(issue_at, list[k as int].0, amount));
                    }
                },
            }
            k += 1;
        }
        assert(list.take(k as int) =~= list);
        Ok(())
    }
}

/// A collision among the first grants of a list is one of the whole list.
pub proof fn lemma_collision_lasts(
    ledger: LedgerView,
    issue_at: u32,
    grants: Seq<(Name, u128)>,
    count: int,
)
    requires
        0 <= count <= grants.len(),
        ledger.issue_collides(issue_at, grants.take(count)),
    ensures
        ledger.issue_collides(issue_at, grants),
    decreases grants.len() - count,
{
    if count < grants.len() {
        assert(grants.take(count + 1).drop_last() =~= grants.take(count));
        lemma_collision_lasts(ledger, issue_at, grants, count + 1);
    } else {
        assert(grants.take(count) =~= grants);
    }
}

} // verus!
