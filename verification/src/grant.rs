use vstd::prelude::*;
use crate::account::{claim_grants, claim_orders, terminate_all, terminate_grants, BASIS_POINTS};
use crate::auth::Role;
use crate::authorize::{
    aligned, batch_keys, batch_view, lemma_without_pending, percentage_or_all, Authorization,
};
use crate::common::{assert_gas, gas_needed, transfer_gas};
use crate::context::Context;
use crate::error::LedgerError;
use crate::event::LtipEvent;
use crate::issuance::{issue_view, settles};
use crate::ledger::{copy_pending, grants_of, lemma_replace_grants, pending_for};
use crate::model::has_key;
use crate::query::{orders_in, orders_of, orders_view, shown_grants};
use crate::reconcile::{keys_view, Reconciliation, TransferResult};
use crate::settlement::lemma_claim;
use crate::termination::lemma_terminate;
use crate::vesting::{calculate_vested_amount, lemma_vested_amount_is_bounded, vested_amount};
use crate::{grants_wf, names_view, Account, Config, Contract, Grant, LedgerView};

verus! {

/// What identifies one transfer of a batch: the beneficiary and the grant
/// that the amount was taken from.
#[derive(Clone, Debug, PartialEq, Eq)]
pub struct TransferKey {
    pub account_id: String,
    pub issue_at: u32,
}

/// An account as it is shown to a reader.
#[derive(Clone, Debug, PartialEq, Eq)]
pub struct AccountView {
    pub account_id: String,
    pub grants: Vec<GrantView>,
}

/// A grant as it is shown to a reader, with what follows from the time of
/// reading.
#[derive(Clone, Copy, Debug, PartialEq, Eq)]
pub struct GrantView {
    pub issued_at: u32,
    pub cliff_end_at: u32,
    pub vesting_end_at: u32,
    pub total_amount: u128,
    pub claimed_amount: u128,
    pub order_amount: u128,
    pub vested_amount: u128,
    pub not_vested_amount: u128,
    pub claimable_amount: u128,
    pub terminated_at: Option<u32>,
}

impl Config {
    /// The second at which the cliff of a grant issued at `issue_at` ends.
    pub open spec fn spec_cliff_end(&self, issue_at: u32) -> int {
        issue_at + self.cliff_duration
    }

    /// The second at which a grant issued at `issue_at` is fully vested.
    pub open spec fn spec_vesting_end(&self, issue_at: u32) -> int {
        issue_at + self.cliff_duration + self.vesting_duration
    }

    pub fn cliff_end(&self, issue_at: u32) -> (end: u32)
        requires
            self.spec_cliff_end(issue_at) <= u32::MAX,
        ensures
            end == self.spec_cliff_end(issue_at),
    {
        issue_at + self.cliff_duration
    }

    pub fn vesting_end(&self, issue_at: u32) -> (end: u32)
        requires
            self.spec_vesting_end(issue_at) <= u32::MAX,
        ensures
            end == self.spec_vesting_end(issue_at),
    {
        self.cliff_end(issue_at) + self.vesting_duration
    }
}

impl Grant {
    /// The second at which the grant stops vesting: the configured end, or,
    /// once terminated, the second of termination if the cliff has ended by
    /// then and the end of the cliff if not.
    pub open spec fn vesting_stops_at(&self, issue_at: u32, config: Config) -> int {
        let cliff_end = config.spec_cliff_end(issue_at);
        match self.terminated_at {
            None => config.spec_vesting_end(issue_at),
            Some(terminated_at) => if terminated_at > cliff_end {
                terminated_at as int
            } else {
                cliff_end
            },
        }
    }

    /// What has vested of the grant at `now`.
    pub open spec fn vested_at(&self, issue_at: u32, config: Config, now: u32) -> nat {
        vested_amount(
            now,
            config.spec_cliff_end(issue_at) as u32,
            self.vesting_stops_at(issue_at, config) as u32,
            self.total_amount,
        )
    }

    /// What has vested of the grant at `now`; a terminated grant stops
    /// vesting at its termination.
    pub fn get_vested_amount(&self, issue_at: u32, config: &Config, now: u32) -> (vested: u128)
        requires
            config.covers(issue_at),
        ensures
            vested == self.vested_at(issue_at, *config, now),
            vested <= self.total_amount,
    {
        let cliff_end: u32 = issue_at + config.cliff_duration;
        let effective_vesting_duration: u32 = match self.terminated_at {
            None => config.vesting_duration,
            Some(terminated_at) => if terminated_at > cliff_end {
                terminated_at - cliff_end
            } else {
                0
            },
        };
        calculate_vested_amount(
            now,
            cliff_end,
            cliff_end + effective_vesting_duration,
            self.total_amount,
        )
    }

    /// The tokens that vest per second, rounded down.
    pub open spec fn spec_performance(&self, vesting_duration: u32) -> nat {
        (self.total_amount as nat) / (vesting_duration as nat)
    }

    /// Amount of tokens being vested per second.
    pub fn performance(&self, vesting_duration: u32) -> (rate: u128)
        requires
            vesting_duration > 0,
        ensures
            rate == self.spec_performance(vesting_duration),
    {
        self.total_amount / (vesting_duration as u128)
    }

    /// What has vested at `now` by the configured schedule, whatever the
    /// grant's termination says.
    pub open spec fn scheduled_at(&self, issue_at: u32, config: Config, now: u32) -> nat {
        vested_amount(
            now,
            config.spec_cliff_end(issue_at) as u32,
            config.spec_vesting_end(issue_at) as u32,
            self.total_amount,
        )
    }

    /// Whether a termination that takes effect at `terminate_at` changes
    /// nothing: the grant is terminated already, or fully vested by then.
    pub open spec fn termination_is_void(&self, issue_at: u32, config: Config, terminate_at: u32)
        -> bool {
        self.terminated_at is Some || terminate_at > config.spec_vesting_end(issue_at)
    }

    /// The seconds of vesting that account for what was claimed, at the
    /// grant's rate.
    pub open spec fn claimed_seconds(&self, config: Config) -> nat {
        (self.claimed_amount as nat) / self.spec_performance(config.vesting_duration)
    }

    /// Whether a termination at `now` is defined: where more was claimed than
    /// has vested, the grant must vest at least one token per second, and the
    /// second by which the claimed amount would have vested must be one that
    /// a timestamp can hold.
    pub open spec fn can_terminate(
        &self,
        issue_at: u32,
        config: Config,
        now: u32,
        terminate_at: u32,
    ) -> bool {
        ||| self.termination_is_void(issue_at, config, terminate_at)
        ||| self.scheduled_at(issue_at, config, now) >= self.claimed_amount
        ||| {
            &&& config.vesting_duration > 0
            &&& self.spec_performance(config.vesting_duration) > 0
            &&& config.spec_cliff_end(issue_at) + self.claimed_seconds(config) <= u32::MAX
        }
    }

    /// The grant after a termination at `now` that takes effect at
    /// `terminate_at`. Where what has vested covers what was claimed, the
    /// grant is cut down to what has vested and its order to what is left of
    /// that; otherwise it is cut down to what was claimed, loses its order,
    /// and counts as terminated at the second by which the claimed amount
    /// would have vested.
    pub open spec fn after_termination(
        &self,
        issue_at: u32,
        config: Config,
        now: u32,
        terminate_at: u32,
    ) -> Grant {
        let vested = self.scheduled_at(issue_at, config, now);
        if self.termination_is_void(issue_at, config, terminate_at) {
            *self
        } else if vested >= self.claimed_amount {
            Grant {
                total_amount: vested as u128,
                claimed_amount: self.claimed_amount,
                order_amount: if self.order_amount <= vested - self.claimed_amount {
                    self.order_amount
                } else {
                    (vested - self.claimed_amount) as u128
                },
                terminated_at: Some(terminate_at),
            }
        } else {
            Grant {
                total_amount: self.claimed_amount,
                claimed_amount: self.claimed_amount,
                order_amount: 0,
                terminated_at: Some(
                    (config.spec_cliff_end(issue_at) + self.claimed_seconds(config)) as u32,
                ),
            }
        }
    }

    /// What a termination gives back to the spare pool: the part of the grant
    /// that it cuts off.
    pub open spec fn recovered_by(
        &self,
        issue_at: u32,
        config: Config,
        now: u32,
        terminate_at: u32,
    ) -> nat {
        (self.total_amount - self.after_termination(
            issue_at,
            config,
            now,
            terminate_at,
        ).total_amount) as nat
    }

    /// Whether `terminate` may be called with these arguments.
    pub fn is_terminable(
        &self,
        issue_at: u32,
        config: &Config,
        now: u32,
        terminate_at: u32,
    ) -> (ok: bool)
        requires
            config.covers(issue_at),
        ensures
            ok == self.can_terminate(issue_at, *config, now, terminate_at),
    {
        if self.terminated_at.is_some() {
            return true;
        }
        let cliff_end: u32 = config.cliff_end(issue_at);
        let vesting_end: u32 = config.vesting_end(issue_at);
        if terminate_at > vesting_end {
            return true;
        }
        let vested: u128 = calculate_vested_amount(now, cliff_end, vesting_end, self.total_amount);
        if vested >= self.claimed_amount {
            return true;
        }
        if config.vesting_duration == 0 {
            return false;
        }
        let rate: u128 = self.performance(config.vesting_duration);
        if rate == 0 {
            return false;
        }
        let seconds: u128 = self.claimed_amount / rate;
        let room: u32 = u32::MAX - cliff_end;
        seconds <= room as u128
    }

    /// Terminates the grant at `now`, with effect at `terminate_at`, and
    /// returns what goes back to the spare pool.
    pub fn terminate(
        &mut self,
        issue_at: u32,
        config: &Config,
        now: u32,
        terminate_at: u32,
    ) -> (recovered: u128)
        requires
            config.covers(issue_at),
            old(self).wf(),
            old(self).can_terminate(issue_at, *config, now, terminate_at),
        ensures
            *final(self) == old(self).after_termination(issue_at, *config, now, terminate_at),
            recovered == old(self).recovered_by(issue_at, *config, now, terminate_at),
            final(self).wf(),
            final(self).owed() + recovered == old(self).owed(),
    {
        if self.terminated_at.is_some() {
            return 0;
        }
        let cliff_end: u32 = config.cliff_end(issue_at);
        let vesting_end: u32 = config.vesting_end(issue_at);
        if terminate_at > vesting_end {
            return 0;
        }
        let vested: u128 = calculate_vested_amount(now, cliff_end, vesting_end, self.total_amount);
        if vested >= self.claimed_amount {
            self.terminated_at = Some(terminate_at);
            let covered: u128 = vested - self.claimed_amount;
            if self.order_amount > covered {
                self.order_amount = covered;
            }
            let unvested: u128 = self.total_amount - vested;
            self.total_amount = vested;
            return unvested;
        }
        let rate: u128 = self.performance(config.vesting_duration);
        let seconds: u128 = self.claimed_amount / rate;
        self.terminated_at = Some(cliff_end + seconds as u32);
        self.order_amount = 0;
        let unvested: u128 = self.total_amount - self.claimed_amount;
        self.total_amount = self.claimed_amount;
        unvested
    }
}

/// What the ledger does with grants: claims, the settlement of orders by
/// buyback or by transfer, the reconciliation of transfers, issues,
/// terminations, and what a reader may ask.
pub trait GrantApi: View<V = LedgerView> + Sized {
    /// Converts what has newly vested of the caller's grants into orders. A
    /// grant with a transfer in flight is left alone. A caller without an
    /// account gets an empty one.
    fn claim(&mut self, ctx: &Context) -> (result: Result<Option<LtipEvent>, LedgerError>)
        requires
            old(self)@.wf(),
        ensures
            final(self)@.wf(),
            ctx.paused ==> result == Err::<Option<LtipEvent>, LedgerError>(LedgerError::Paused)
                && final(self)@ == old(self)@,
            !ctx.paused ==> result is Ok && final(self)@ == old(self)@.claim(
                ctx.predecessor@,
                ctx.now,
            ) && old(self)@.claim_reports(ctx.predecessor@, ctx.now, result->Ok_0),
    ;

    /// Sends out the orders of the beneficiaries: of every order the share
    /// of `percentage` basis points, all of it where none are given, counts
    /// as claimed at once and is recorded as in flight, and the order is
    /// gone. The caller is told to pause the ledger and to submit the batch;
    /// the reconciliation undoes what fails. With no basis points the orders
    /// are declined and the ledger stays as it runs. Nothing happens where
    /// the gas left does not cover the batch.
    fn authorize(
        &mut self,
        ctx: &Context,
        account_ids: Vec<String>,
        percentage: Option<u32>,
    ) -> (result: Result<Authorization, LedgerError>)
        requires
            old(self)@.wf(),
            percentage_or_all(percentage) <= BASIS_POINTS,
        ensures
            final(self)@.wf(),
            result is Err ==> final(self)@ == old(self)@,
            !ctx.holds(Role::Executor) ==> result == Err::<Authorization, LedgerError>(
                LedgerError::Unauthorized(Role::Executor),
            ),
            ctx.holds(Role::Executor) && ctx.paused ==> result == Err::<
                Authorization,
                LedgerError,
            >(LedgerError::Paused),
            ctx.holds(Role::Executor) && !ctx.paused && gas_needed(
                old(self)@.authorized_batch(
                    names_view(account_ids@),
                    percentage_or_all(percentage),
                ).len(),
            ) > ctx.gas_left ==> result == Err::<Authorization, LedgerError>(
                LedgerError::NotEnoughGas,
            ),
            ctx.holds(Role::Executor) && !ctx.paused && gas_needed(
                old(self)@.authorized_batch(
                    names_view(account_ids@),
                    percentage_or_all(percentage),
                ).len(),
            ) <= ctx.gas_left ==> {
                &&& result is Ok
                &&& final(self)@ == old(self)@.authorize(
                    names_view(account_ids@),
                    percentage_or_all(percentage),
                )
                &&& result->Ok_0.pause == (percentage_or_all(percentage) != 0)
                &&& aligned(result->Ok_0.transfers@, result->Ok_0.transfer_keys@)
                &&& batch_view(result->Ok_0.transfers@, result->Ok_0.transfer_keys@) == old(
                    self,
                )@.authorized_batch(names_view(account_ids@), percentage_or_all(percentage))
                &&& keys_view(result->Ok_0.transfer_keys@) == batch_keys(
                    old(self)@.authorized_batch(
                        names_view(account_ids@),
                        percentage_or_all(percentage),
                    ),
                )
            },
    ;

    /// Reconciles a batch of transfers with the ledger, once the batch has
    /// settled: every key stands for the transfer at its place in the batch
    /// and is read with the result at that place. A transfer that succeeded
    /// is reflected in the ledger already. One that failed is undone: what
    /// was recorded as in flight for the key goes back from what counts as
    /// claimed to the order. In the end nothing is in flight any more, and
    /// the caller unpauses the ledger.
    fn on_authorize_complete(
        &mut self,
        ctx: &Context,
        transfer_keys: Vec<TransferKey>,
        results: Vec<TransferResult>,
    ) -> (result: Result<Reconciliation, LedgerError>)
        requires
            old(self)@.wf(),
            transfer_keys@.len() == results@.len(),
        ensures
            final(self)@.wf(),
            !ctx.paused ==> result == Err::<Reconciliation, LedgerError>(LedgerError::NotPaused)
                && final(self)@ == old(self)@,
            ctx.paused ==> result is Ok && result->Ok_0.unpause && final(self)@
                == old(self)@.reconcile(keys_view(transfer_keys@), results@),
    ;

    /// Issues grants for the second `issue_at` from the spare pool: every
    /// beneficiary gets a new grant of the amount given, and the pool is
    /// lowered by their sum. Nothing is issued where the pool does not cover
    /// the sum or a beneficiary already has a grant for that second.
    fn issue(&mut self, ctx: &Context, issue_at: u32, grants: Vec<(String, u128)>) -> (result:
        Result<(), LedgerError>)
        requires
            old(self)@.wf(),
            old(self)@.config.covers(issue_at),
        ensures
            final(self)@.wf(),
            result is Err ==> final(self)@ == old(self)@,
            !ctx.holds(Role::Issuer) ==> result == Err::<(), LedgerError>(
                LedgerError::Unauthorized(Role::Issuer),
            ),
            ctx.holds(Role::Issuer) && ctx.paused ==> result == Err::<(), LedgerError>(
                LedgerError::Paused,
            ),
            ctx.holds(Role::Issuer) && !ctx.paused ==> settles(
                result,
                final(self)@,
                old(self)@.issue(issue_at, issue_view(grants@)),
            ),
    ;

    /// Settles the orders of the beneficiaries against the spare pool: of
    /// every order the share of `percentage` basis points counts as claimed
    /// and goes to the pool, and the order is gone. With no basis points the
    /// orders are declined. A grant with a transfer in flight is left alone.
    fn buy(
        &mut self,
        ctx: &Context,
        account_ids: Vec<String>,
        percentage: u32,
    ) -> (result: Result<(), LedgerError>)
        requires
            old(self)@.wf(),
            percentage <= BASIS_POINTS,
        ensures
            final(self)@.wf(),
            !ctx.holds(Role::Executor) ==> result == Err::<(), LedgerError>(
                LedgerError::Unauthorized(Role::Executor),
            ) && final(self)@ == old(self)@,
            ctx.holds(Role::Executor) && ctx.paused ==> result == Err::<(), LedgerError>(
                LedgerError::Paused,
            ) && final(self)@ == old(self)@,
            ctx.holds(Role::Executor) && !ctx.paused ==> result is Ok && final(self)@
                == old(self)@.buy(names_view(account_ids@), percentage),
    ;

    /// All orders that wait to be settled.
    fn get_orders(&self) -> (orders: Vec<(String, u32, u128)>)
        ensures
            orders_view(orders@) == orders_of(self@.accounts),
    ;

    /// The account of the beneficiary as a reader sees it at `now`, if
    /// there is one.
    fn get_account(&self, account_id: &String, now: u32) -> (view: Option<AccountView>)
        requires
            self@.wf(),
        ensures
            !has_key(self@.accounts, account_id@) ==> view is None,
            has_key(self@.accounts, account_id@) ==> view is Some && view->0.account_id@
                == account_id@ && view->0.grants@ == shown_grants(
                grants_of(self@.accounts, account_id@),
                self@.config,
                now,
            ),
    ;

    /// The funds that are assigned to no grant.
    fn get_spare_balance(&self) -> (balance: u128)
        ensures
            balance == self@.spare_balance,
    ;

    /// What is recorded as in flight, by beneficiary.
    fn get_pending_transfers(&self) -> (pending: Vec<(String, Vec<(u32, u128)>)>)
        ensures
            crate::pending_view(pending@) == self@.pending_transfers,
    ;

    /// Terminates the grants of a beneficiary with effect at `timestamp`:
    /// declines the orders that are not in flight, cuts every grant down to
    /// what has vested at the time of the call, or to what was claimed where
    /// that is more, and returns the rest to the spare pool.
    fn terminate(
        &mut self,
        ctx: &Context,
        account_id: String,
        timestamp: u32,
    ) -> (result: Result<(), LedgerError>)
        requires
            old(self)@.wf(),
            ctx.holds(Role::Executor) && !ctx.paused ==> old(self)@.can_terminate(
                account_id@,
                ctx.now,
                timestamp,
            ),
        ensures
            final(self)@.wf(),
            !ctx.holds(Role::Executor) ==> result == Err::<(), LedgerError>(
                LedgerError::Unauthorized(Role::Executor),
            ) && final(self)@ == old(self)@,
            ctx.holds(Role::Executor) && ctx.paused ==> result == Err::<(), LedgerError>(
                LedgerError::Paused,
            ) && final(self)@ == old(self)@,
            ctx.holds(Role::Executor) && !ctx.paused ==> result is Ok && final(self)@
                == old(self)@.terminate(account_id@, ctx.now, timestamp),
    ;
}

impl GrantApi for Contract {
    fn claim(&mut self, ctx: &Context) -> (result: Result<Option<LtipEvent>, LedgerError>) {
        if ctx.paused {
            return Err(LedgerError::Paused);
        }
        proof {
            lemma_claim(self@, ctx.predecessor@, ctx.now);
        }
        let ghost before = self@;
        let ghost grants = grants_of(before.accounts, ctx.predecessor@);
        let ghost pending = pending_for(before.pending_transfers, ctx.predecessor@);
        match self.find_account(&ctx.predecessor) {
            None => {
                self.accounts.push((ctx.predecessor.clone(), Account { grants: Vec::new() }));
                proof {
                    assert(claim_grants(grants, pending, before.config, ctx.now) =~= Seq::empty());
                    assert(self@.accounts =~= before.accounts.push(
                        (ctx.predecessor@, Seq::empty()),
                    ));
                }
                Ok(None)
            },
            Some(index) => {
                if self.accounts[index].1.grants.len() == 0 {
                    proof {
                        assert(claim_grants(grants, pending, before.config, ctx.now)
                            =~= Seq::empty());
                        assert(before.accounts[index as int].1 =~= Seq::empty());
                        assert(before.accounts.update(
                            index as int,
                            (ctx.predecessor@, Seq::empty()),
                        ) =~= before.accounts);
                    }
                    return Ok(None);
                }
                assert(grants_wf(before.accounts[index as int].1, before.config));
                let events = match self.find_pending(&ctx.predecessor) {
                    Some(at) => claim_orders(
                        &mut self.accounts[index].1.grants,
                        &self.pending_transfers[at].1,
                        &self.config,
                        ctx.now,
                    ),
                    None => {
                        let none: Vec<(u32, u128)> = Vec::new();
                        claim_orders(
                            &mut self.accounts[index].1.grants,
                            &none,
                            &self.config,
                            ctx.now,
                        )
                    },
                };
                proof {
                    assert(self@.accounts =~= before.accounts.update(
                        index as int,
                        (
                            ctx.predecessor@,
                            claim_grants(grants, pending, before.config, ctx.now),
                        ),
                    ));
                    assert(self@.pending_transfers =~= before.pending_transfers);
                }
                Ok(Some(LtipEvent::OrderUpdate(events)))
            },
        }
    }

    fn authorize(
        &mut self,
        ctx: &Context,
        account_ids: Vec<String>,
        percentage: Option<u32>,
    ) -> (result: Result<Authorization, LedgerError>) {
        if !ctx.has_role(Role::Executor) {
            return Err(LedgerError::Unauthorized(Role::Executor));
        }
        if ctx.paused {
            return Err(LedgerError::Paused);
        }
        let percentage: u32 = match percentage {
            Some(given) => given,
            None => BASIS_POINTS,
        };
        let mut transfers: Vec<(String, u128)> = Vec::new();
        let mut transfer_keys: Vec<TransferKey> = Vec::new();
        let ghost names = names_view(account_ids@);
        if percentage == 0 {
            self.decline_orders(&account_ids);
            assert(batch_view(transfers@, transfer_keys@) =~= Seq::empty());
            assert(keys_view(transfer_keys@) =~= batch_keys(batch_view(transfers@, transfer_keys@)));
            return Ok(Authorization { pause: false, transfers, transfer_keys });
        }
        let saved = self.snapshot();
        let ghost before = self@.without_pending();
        proof {
            lemma_without_pending(self@);
        }
        self.pending_transfers.clear();
        assert(self@.pending_transfers =~= Seq::empty());
        let mut k: usize = 0;
        assert(names.take(0) =~= Seq::empty());
        assert(batch_view(transfers@, transfer_keys@) =~= Seq::empty());
        while k < account_ids.len()
            invariant
                before == old(self)@.without_pending(),
                names == names_view(account_ids@),
                percentage <= BASIS_POINTS,
                0 <= k <= account_ids@.len(),
                self@ == before.authorize_all(names.take(k as int), percentage),
                self@.wf(),
                aligned(transfers@, transfer_keys@),
                batch_view(transfers@, transfer_keys@) == before.batch(
                    names.take(k as int),
                    percentage,
                ),
            decreases account_ids@.len() - k,
        {
            proof {
                assert(names.take(k + 1).drop_last() =~= names.take(k as int));
                assert(names.take(k + 1).last() == account_ids@[k as int]@);
            }
            self.authorize_for(&account_ids[k], percentage, &mut transfers, &mut transfer_keys);
            k += 1;
        }
        proof {
            assert(names.take(k as int) =~= names);
        }
        if transfers.len() > 0 {
            let unit: u64 = transfer_gas();
            assert(unit * transfers.len() <= u64::MAX * usize::MAX) by (nonlinear_arith)
                requires
                    0 <= unit <= u64::MAX,
                    0 <= transfers.len() <= usize::MAX,
            ;
            let needed: u128 = (unit as u128) * (transfers.len() as u128);
            assert(needed == gas_needed(transfers@.len()));
            if needed > u64::MAX as u128 {
                *self = saved;
                return Err(LedgerError::NotEnoughGas);
            }
            if assert_gas(ctx.gas_left, needed as u64).is_err() {
                *self = saved;
                return Err(LedgerError::NotEnoughGas);
            }
        } else {
            assert(gas_needed(0) == 0) by (nonlinear_arith)
                requires
                    gas_needed(0) == crate::common::gas_per_transfer() * 0,
            ;
        }
        assert(keys_view(transfer_keys@) =~= batch_keys(batch_view(transfers@, transfer_keys@)));
        Ok(Authorization { pause: true, transfers, transfer_keys })
    }

    fn on_authorize_complete(
        &mut self,
        ctx: &Context,
        transfer_keys: Vec<TransferKey>,
        results: Vec<TransferResult>,
    ) -> (result: Result<Reconciliation, LedgerError>) {
        if !ctx.paused {
            return Err(LedgerError::NotPaused);
        }
        let ghost before = self@;
        let ghost keys = keys_view(transfer_keys@);
        let mut k: usize = 0;
        assert(keys.take(0) =~= Seq::empty());
        while k < transfer_keys.len()
            invariant
                before == old(self)@,
                keys == keys_view(transfer_keys@),
                transfer_keys@.len() == results@.len(),
                0 <= k <= transfer_keys@.len(),
                self@ == before.revert_failed(keys.take(k as int), results@.take(k as int)),
                self@.wf(),
            decreases transfer_keys@.len() - k,
        {
            proof {
                assert(keys.take(k + 1).drop_last() =~= keys.take(k as int));
                assert(results@.take(k + 1).drop_last() =~= results@.take(k as int));
                assert(keys.take(k + 1).last() == keys[k as int]);
                assert(results@.take(k + 1).last() == results@[k as int]);
            }
            match results[k] {
                TransferResult::Successful => {},
                TransferResult::Failed => {
                    self.revert(&transfer_keys[k]);
                },
            }
            k += 1;
        }
        proof {
            assert(keys.take(k as int) =~= keys);
            assert(results@.take(k as int) =~= results@);
            crate::authorize::lemma_without_pending(self@);
        }
        self.pending_transfers.clear();
        assert(self@.pending_transfers =~= Seq::empty());
        Ok(Reconciliation { unpause: true })
    }

    fn issue(&mut self, ctx: &Context, issue_at: u32, grants: Vec<(String, u128)>) -> (result:
        Result<(), LedgerError>) {
        if !ctx.has_role(Role::Issuer) {
            return Err(LedgerError::Unauthorized(Role::Issuer));
        }
        self.issue_internal(ctx, issue_at, grants)
    }

    fn buy(
        &mut self,
        ctx: &Context,
        account_ids: Vec<String>,
        percentage: u32,
    ) -> (result: Result<(), LedgerError>) {
        if !ctx.has_role(Role::Executor) {
            return Err(LedgerError::Unauthorized(Role::Executor));
        }
        if ctx.paused {
            return Err(LedgerError::Paused);
        }
        if percentage == 0 {
            self.decline_orders(&account_ids);
            return Ok(());
        }
        let ghost before = self@;
        let ghost names = names_view(account_ids@);
        let mut k: usize = 0;
        assert(names.take(0) =~= Seq::empty());
        while k < account_ids.len()
            invariant
                before == old(self)@,
                names == names_view(account_ids@),
                percentage <= BASIS_POINTS,
                0 <= k <= account_ids@.len(),
                self@ == before.buy_all(names.take(k as int), percentage),
                self@.wf(),
            decreases account_ids@.len() - k,
        {
            proof {
                assert(names.take(k + 1).drop_last() =~= names.take(k as int));
                assert(names.take(k + 1).last() == account_ids@[k as int]@);
            }
            self.buy_from(&account_ids[k], percentage);
            k += 1;
        }
        proof {
            assert(names.take(k as int) =~= names);
        }
        Ok(())
    }

    fn get_orders(&self) -> (orders: Vec<(String, u32, u128)>) {
        let mut orders: Vec<(String, u32, u128)> = Vec::new();
        let ghost accounts = self@.accounts;
        let mut i: usize = 0;
        assert(accounts.take(0) =~= Seq::empty());
        assert(orders_view(orders@) =~= Seq::empty());
        while i < self.accounts.len()
            invariant
                accounts == self@.accounts,
                0 <= i <= self.accounts@.len(),
                orders_view(orders@) == orders_of(accounts.take(i as int)),
            decreases self.accounts@.len() - i,
        {
            let ghost reached = orders_view(orders@);
            let ghost id = self.accounts@[i as int].0@;
            let ghost grants = self.accounts@[i as int].1@;
            let mut j: usize = 0;
            proof {
                assert(accounts.take(i + 1).drop_last() =~= accounts.take(i as int));
                assert(accounts.take(i + 1).last() == accounts[i as int]);
                assert(grants.take(0) =~= Seq::empty());
                assert(reached + orders_in(id, Seq::empty()) =~= reached);
            }
            while j < self.accounts[i].1.grants.len()
                invariant
                    i < self.accounts@.len(),
                    id == self.accounts@[i as int].0@,
                    grants == self.accounts@[i as int].1@,
                    0 <= j <= grants.len(),
                    orders_view(orders@) == reached + orders_in(id, grants.take(j as int)),
                decreases grants.len() - j,
            {
                let ghost so_far = orders_view(orders@);
                let issue_at: u32 = self.accounts[i].1.grants[j].0;
                let order: u128 = self.accounts[i].1.grants[j].1.order_amount;
                proof {
                    assert(grants.take(j + 1).drop_last() =~= grants.take(j as int));
                    assert(grants.take(j + 1).last() == grants[j as int]);
                }
                if order > 0 {
                    orders.push((self.accounts[i].0.clone(), issue_at, order));
                    proof {
                        assert(orders_view(orders@) =~= so_far.push((id, issue_at, order)));
                        assert(reached + orders_in(id, grants.take(j + 1)) =~= (reached
                            + orders_in(id, grants.take(j as int))).push((id, issue_at, order)));
                    }
                }
                j += 1;
            }
            proof {
                assert(grants.take(j as int) =~= grants);
            }
            i += 1;
        }
        proof {
            assert(accounts.take(i as int) =~= accounts);
        }
        orders
    }

    fn get_account(&self, account_id: &String, now: u32) -> (view: Option<AccountView>) {
        match self.find_account(account_id) {
            None => None,
            Some(index) => {
                let mut shown: Vec<GrantView> = Vec::new();
                let ghost grants = self.accounts@[index as int].1@;
                let ghost target = shown_grants(grants, self.config, now);
                assert(grants_wf(self@.accounts[index as int].1, self@.config));
                let mut j: usize = 0;
                while j < self.accounts[index].1.grants.len()
                    invariant
                        index < self.accounts@.len(),
                        grants == self.accounts@[index as int].1@,
                        grants_wf(grants, self.config),
                        target == shown_grants(grants, self.config, now),
                        0 <= j <= grants.len(),
                        shown@.len() == j,
                        forall|k: int| 0 <= k < j ==> #[trigger] shown@[k] == target[k],
                    decreases grants.len() - j,
                {
                    let issue_at: u32 = self.accounts[index].1.grants[j].0;
                    let grant: Grant = self.accounts[index].1.grants[j].1;
                    assert(grants[j as int].1.wf() && self.config.covers(grants[j as int].0));
                    let cliff_end_at: u32 = self.config.cliff_end(issue_at);
                    let vesting_end_at: u32 = self.config.vesting_end(issue_at);
                    let vested_amount: u128 = grant.get_vested_amount(issue_at, &self.config, now);
                    let claimable_amount: u128 = if vested_amount >= grant.claimed_amount {
                        vested_amount - grant.claimed_amount
                    } else {
                        0
                    };
                    shown.push(
                        GrantView {
                            issued_at: issue_at,
                            cliff_end_at,
                            vesting_end_at,
                            total_amount: grant.total_amount,
                            claimed_amount: grant.claimed_amount,
                            order_amount: grant.order_amount,
                            vested_amount,
                            not_vested_amount: grant.total_amount - vested_amount,
                            claimable_amount,
                            terminated_at: grant.terminated_at,
                        },
                    );
                    j += 1;
                }
                assert(shown@ =~= target);
                Some(AccountView { account_id: account_id.clone(), grants: shown })
            },
        }
    }

    fn get_spare_balance(&self) -> (balance: u128) {
        self.spare_balance
    }

    fn get_pending_transfers(&self) -> (pending: Vec<(String, Vec<(u32, u128)>)>) {
        copy_pending(&self.pending_transfers)
    }

    fn terminate(
        &mut self,
        ctx: &Context,
        account_id: String,
        timestamp: u32,
    ) -> (result: Result<(), LedgerError>) {
        if !ctx.has_role(Role::Executor) {
            return Err(LedgerError::Unauthorized(Role::Executor));
        }
        if ctx.paused {
            return Err(LedgerError::Paused);
        }
        proof {
            lemma_terminate(self@, account_id@, ctx.now, timestamp);
        }
        let ghost before = self@;
        let ghost grants = grants_of(before.accounts, account_id@);
        let ghost pending = pending_for(before.pending_transfers, account_id@);
        match self.find_account(&account_id) {
            None => {},
            Some(index) => {
                proof {
                    assert(grants_wf(before.accounts[index as int].1, before.config));
                    lemma_replace_grants(before.accounts, index as int, grants, before.config);
                }
                let recovered: u128 = match self.find_pending(&account_id) {
                    Some(at) => terminate_all(
                        &mut self.accounts[index].1.grants,
                        &self.pending_transfers[at].1,
                        &self.config,
                        ctx.now,
                        timestamp,
                    ),
                    None => {
                        let none: Vec<(u32, u128)> = Vec::new();
                        terminate_all(
                            &mut self.accounts[index].1.grants,
                            &none,
                            &self.config,
                            ctx.now,
                            timestamp,
                        )
                    },
                };
                self.spare_balance = self.spare_balance + recovered;
                proof {
                    assert(self@.accounts =~= before.accounts.update(
                        index as int,
                        (
                            account_id@,
                            terminate_grants(grants, pending, before.config, ctx.now, timestamp),
                        ),
                    ));
                    assert(self@.pending_transfers =~= before.pending_transfers);
                }
            },
        }
        Ok(())
    }
}

/// A termination keeps a grant within its bounds and moves what it cuts off,
/// and nothing else, out of what the grant owes.
pub proof fn lemma_termination_keeps_grant(
    grant: Grant,
    issue_at: u32,
    config: Config,
    now: u32,
    terminate_at: u32,
)
    requires
        grant.wf(),
    ensures
        grant.after_termination(issue_at, config, now, terminate_at).wf(),
        grant.after_termination(issue_at, config, now, terminate_at).claimed_amount
            == grant.claimed_amount,
        grant.after_termination(issue_at, config, now, terminate_at).owed() + grant.recovered_by(
            issue_at,
            config,
            now,
            terminate_at,
        ) == grant.owed(),
        grant.after_termination(issue_at, config, now, terminate_at).total_amount
            <= grant.total_amount,
{
    lemma_vested_amount_is_bounded(
        now,
        config.spec_cliff_end(issue_at) as u32,
        config.spec_vesting_end(issue_at) as u32,
        grant.total_amount,
    );
}

} // verus!
