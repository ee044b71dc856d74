use vstd::prelude::*;
use crate::context::Context;
use crate::grant::GrantApi;
use crate::error::LedgerError;
use crate::issuance::{
    issue_view, lemma_with_grant, new_grant, requested, requested_amounts, settles,
};
use crate::ledger::has_grant;
use crate::model::{lemma_total_prefix, lemma_total_take, total_of};
use crate::{Contract, LedgerView, Name};

verus! {

/// What a transfer of tokens to the ledger is meant for.
#[derive(Debug, PartialEq, Eq)]
pub enum FtMessage {
    /// The tokens go to the spare pool.
    TopUp,
    /// Grants are issued from the spare pool, of the amount received in sum.
    Issue(IssueData),
    /// Grants of a predecessor ledger are taken over: for each the beneficiary,
    /// the second of issuance, the total and what was claimed of it.
    Migrate(Vec<(String, u32, u128, u128)>),
}

/// The grants to issue for one second of issuance.
#[derive(Debug, PartialEq, Eq)]
pub struct IssueData {
    pub issue_date: u32,
    pub grants: Vec<(String, u128)>,
}

/// A grant to take over: the beneficiary, the second of issuance, the total
/// and what was claimed of it.
pub type Migrated = (Name, u32, u128, u128);

/// The grants to take over, by the text of the beneficiary's name.
pub open spec fn migration_view(grants: Seq<(String, u32, u128, u128)>) -> Seq<Migrated> {
    Seq::new(grants.len(), |i: int| (grants[i].0@, grants[i].1, grants[i].2, grants[i].3))
}

/// What each grant to take over still owes.
pub open spec fn migrated_amounts(grants: Seq<Migrated>) -> Seq<nat> {
    Seq::new(grants.len(), |i: int| (grants[i].2 - grants[i].3) as nat)
}

/// What the grants to take over still owe together.
pub open spec fn migrated(grants: Seq<Migrated>) -> nat {
    total_of(migrated_amounts(grants))
}

impl LedgerView {
    /// The ledger with `amount` more in the spare pool.
    pub open spec fn top_up(self, amount: u128) -> LedgerView {
        LedgerView { spare_balance: (self.spare_balance + amount) as u128, ..self }
    }

    /// Whether the grants can be taken over: of none was more claimed than
    /// it holds, and each was issued at a second that the configuration
    /// covers.
    pub open spec fn can_migrate(self, grants: Seq<Migrated>) -> bool {
        forall|i: int|
            0 <= i < grants.len() ==> (#[trigger] grants[i]).3 <= grants[i].2
                && self.config.covers(grants[i].1)
    }

    /// The ledger after the grants were taken over, one after the other.
    pub open spec fn migrate_all(self, grants: Seq<Migrated>) -> LedgerView
        decreases grants.len(),
    {
        if grants.len() == 0 {
            self
        } else {
            let grant = grants.last();
            self.migrate_all(grants.drop_last()).with_grant(
                grant.0,
                grant.1,
                new_grant(grant.2, Some(grant.3)),
            )
        }
    }

    /// Whether one of the grants to take over meets a grant that its
    /// beneficiary already has for that second, from before or from earlier
    /// in the list.
    pub open spec fn migration_collides(self, grants: Seq<Migrated>) -> bool
        decreases grants.len(),
    {
        if grants.len() == 0 {
            false
        } else {
            self.migration_collides(grants.drop_last()) || has_grant(
                self.migrate_all(grants.drop_last()).accounts,
                grants.last().0,
                grants.last().1,
            )
        }
    }

    /// What taking the grants over comes to: a refusal where the amount
    /// received is not what they owe together or one of them meets a grant
    /// that exists, and otherwise the ledger with the grants added.
    pub open spec fn migrate(self, amount: u128, grants: Seq<Migrated>) -> Result<
        LedgerView,
        LedgerError,
    > {
        if migrated(grants) != amount {
            Err(LedgerError::AmountMismatch)
        } else if self.migration_collides(grants) {
            Err(LedgerError::DuplicateGrant)
        } else {
            Ok(self.migrate_all(grants))
        }
    }

    /// What issuing grants on receipt of `amount` comes to: a refusal where
    /// the amount is not the sum of the grants, and otherwise what issuing
    /// them comes to.
    pub open spec fn issue_received(self, amount: u128, issue_at: u32, grants: Seq<(Name, u128)>)
        -> Result<LedgerView, LedgerError> {
        if requested(grants) != amount {
            Err(LedgerError::AmountMismatch)
        } else {
            self.issue(issue_at, grants)
        }
    }
}

/// A collision among the first grants of a list is one of the whole list.
pub proof fn lemma_migration_collision_lasts(ledger: LedgerView, grants: Seq<Migrated>, count: int)
    requires
        0 <= count <= grants.len(),
        ledger.migration_collides(grants.take(count)),
    ensures
        ledger.migration_collides(grants),
    decreases grants.len() - count,
{
    if count < grants.len() {
        assert(grants.take(count + 1).drop_last() =~= grants.take(count));
        lemma_migration_collision_lasts(ledger, grants, count + 1);
    } else {
        assert(grants.take(count) =~= grants);
    }
}

impl Contract {
    /// Adds the amount received to the spare pool.
    pub fn on_top_up(&mut self, amount: u128)
        requires
            old(self)@.wf(),
            old(self)@.holdings() + amount <= u128::MAX,
        ensures
            final(self)@ == old(self)@.top_up(amount),
            final(self)@.wf(),
    {
        self.spare_balance = self.spare_balance + amount;
    }

    /// Issues grants on receipt of `amount`, which must be their sum.
    pub fn on_issue(&mut self, ctx: &Context, amount: u128, issue_data: IssueData) -> (result:
        Result<(), LedgerError>)
        requires
            old(self)@.wf(),
            old(self)@.config.covers(issue_data.issue_date),
        ensures
            final(self)@.wf(),
            result is Err ==> final(self)@ == old(self)@,
            requested(issue_view(issue_data.grants@)) != amount ==> result == Err::<
                (),
                LedgerError,
            >(LedgerError::AmountMismatch),
            requested(issue_view(issue_data.grants@)) == amount && !ctx.holds(
                crate::auth::Role::Issuer,
            ) ==> result == Err::<(), LedgerError>(
                LedgerError::Unauthorized(crate::auth::Role::Issuer),
            ),
            requested(issue_view(issue_data.grants@)) == amount && ctx.holds(
                crate::auth::Role::Issuer,
            ) && ctx.paused ==> result == Err::<(), LedgerError>(LedgerError::Paused),
            ctx.holds(crate::auth::Role::Issuer) && !ctx.paused ==> settles(
                result,
                final(self)@,
                old(self)@.issue_received(
                    amount,
                    issue_data.issue_date,
                    issue_view(issue_data.grants@),
                ),
            ),
    {
        let ghost list = issue_view(issue_data.grants@);
        let ghost amounts = requested_amounts(list);
        let mut total: u128 = 0;
        let mut k: usize = 0;
        assert(amounts.take(0) =~= Seq::empty());
        while k < issue_data.grants.len()
            invariant
                self@ == old(self)@,
                old(self)@.wf(),
                list == issue_view(issue_data.grants@),
                amounts == requested_amounts(list),
                0 <= k <= issue_data.grants@.len(),
                total == total_of(amounts.take(k as int)),
                total <= amount,
            decreases issue_data.grants@.len() - k,
        {
            let granted: u128 = issue_data.grants[k].1;
            proof {
                lemma_total_take(amounts, k as int);
                lemma_total_prefix(amounts, k + 1);
            }
            if granted > amount - total {
                return Err(LedgerError::AmountMismatch);
            }
            total = total + granted;
            k += 1;
        }
        assert(amounts.take(k as int) =~= amounts);
        if total != amount {
            return Err(LedgerError::AmountMismatch);
        }
        self.issue(ctx, issue_data.issue_date, issue_data.grants)
    }

    /// Takes over grants of a predecessor ledger on receipt of `amount`, which
    /// must be what they still owe together. All of them are added or none.
    pub fn on_migrate(&mut self, amount: u128, accounts: Vec<(String, u32, u128, u128)>) -> (result:
        Result<(), LedgerError>)
        requires
            old(self)@.wf(),
            old(self)@.can_migrate(migration_view(accounts@)),
            old(self)@.holdings() + amount <= u128::MAX,
        ensures
            final(self)@.wf(),
            result is Err ==> final(self)@ == old(self)@,
            settles(result, final(self)@, old(self)@.migrate(amount, migration_view(accounts@))),
    {
        let ghost before = self@;
        let ghost list = migration_view(accounts@);
        let ghost amounts = migrated_amounts(list);
        let mut total: u128 = 0;
        let mut k: usize = 0;
        assert(amounts.take(0) =~= Seq::empty());
        while k < accounts.len()
            invariant
                self@ == before,
                before == old(self)@,
                before.wf(),
                before.can_migrate(list),
                list == migration_view(accounts@),
                amounts == migrated_amounts(list),
                0 <= k <= accounts@.len(),
                total == total_of(amounts.take(k as int)),
                total <= amount,
            decreases accounts@.len() - k,
        {
            proof {
                lemma_total_take(amounts, k as int);
                lemma_total_prefix(amounts, k + 1);
                assert(list[k as int].3 <= list[k as int].2);
            }
            let owed: u128 = accounts[k].2 - accounts[k].3;
            if owed > amount - total {
                return Err(LedgerError::AmountMismatch);
            }
            total = total + owed;
            k += 1;
        }
        assert(amounts.take(k as int) =~= amounts);
        if total != amount {
            return Err(LedgerError::AmountMismatch);
        }
        let saved = self.snapshot();
        let mut k: usize = 0;
        assert(list.take(0) =~= Seq::empty());
        while k < accounts.len()
            invariant
                before == old(self)@,
                saved@ == before,
                before.wf(),
                before.can_migrate(list),
                before.holdings() + amount <= u128::MAX,
                list == migration_view(accounts@),
                amounts == migrated_amounts(list),
                total_of(amounts) == amount,
                0 <= k <= accounts@.len(),
                self@ == before.migrate_all(list.take(k as int)),
                !before.migration_collides(list.take(k as int)),
                self@.wf(),
                self@.config == before.config,
                self@.holdings() == before.holdings() + total_of(amounts.take(k as int)),
            decreases accounts@.len() - k,
        {
            let ghost reached = self@;
            proof {
                assert(list.take(k + 1).drop_last() =~= list.take(k as int));
                assert(list.take(k + 1).last() == list[k as int]);
                lemma_total_take(amounts, k as int);
                lemma_total_prefix(amounts, k + 1);
                assert(list[k as int].3 <= list[k as int].2 && before.config.covers(
                    list[k as int].1,
                ));
            }
            match self.create_grant_internal(
                &accounts[k].0,
                accounts[k].1,
                accounts[k].2,
                Some(accounts[k].3),
            ) {
                Err(_) => {
                    proof {
                        lemma_migration_collision_lasts(before, list, k + 1);
                    }
                    *self = saved;
                    return Err(LedgerError::DuplicateGrant);
                },
                Ok(()) => {
                    proof {
                        lemma_with_grant(
                            reached,
                            list[k as int].0,
                            list[k as int].1,
                            new_grant(list[k as int].2, Some(list[k as int].3)),
                        );
                    }
                },
            }
            k += 1;
        }
        assert(list.take(k as int) =~= list);
        Ok(())
    }

    /// Takes in a transfer of tokens and does what its message asks for.
    /// Returns the part of the amount that is not used, which is none.
    pub fn ft_on_transfer(&mut self, ctx: &Context, amount: u128, message: FtMessage) -> (result:
        Result<u128, LedgerError>)
        requires
            old(self)@.wf(),
            match message {
                FtMessage::TopUp => old(self)@.holdings() + amount <= u128::MAX,
                FtMessage::Issue(issue_data) => old(self)@.config.covers(issue_data.issue_date),
                FtMessage::Migrate(accounts) => old(self)@.can_migrate(migration_view(accounts@))
                    && old(self)@.holdings() + amount <= u128::MAX,
            },
        ensures
            final(self)@.wf(),
            result is Err ==> final(self)@ == old(self)@,
            result is Ok ==> result->Ok_0 == 0,
            message is TopUp ==> result is Ok && final(self)@ == old(self)@.top_up(amount),
            match message {
                FtMessage::TopUp => true,
                FtMessage::Issue(issue_data) => {
                    &&& requested(issue_view(issue_data.grants@)) != amount ==> result == Err::<
                        u128,
                        LedgerError,
                    >(LedgerError::AmountMismatch)
                    &&& ctx.holds(crate::auth::Role::Issuer) && !ctx.paused ==> settles(
                        erased(result),
                        final(self)@,
                        old(self)@.issue_received(
                            amount,
                            issue_data.issue_date,
                            issue_view(issue_data.grants@),
                        ),
                    )
                },
                FtMessage::Migrate(accounts) => settles(
                    erased(result),
                    final(self)@,
                    old(self)@.migrate(amount, migration_view(accounts@)),
                ),
            },
    {
        match message {
            FtMessage::TopUp => {
                self.on_top_up(amount);
                Ok(0)
            },
            FtMessage::Issue(issue_data) => match self.on_issue(ctx, amount, issue_data) {
                Ok(()) => Ok(0),
                Err(error) => Err(error),
            },
            FtMessage::Migrate(accounts) => match self.on_migrate(amount, accounts) {
                Ok(()) => Ok(0),
                Err(error) => Err(error),
            },
        }
    }
}

/// The result without what it returns.
pub open spec fn erased(result: Result<u128, LedgerError>) -> Result<(), LedgerError> {
    match result {
        Ok(_) => Ok(()),
        Err(error) => Err(error),
    }
}

} // verus!
