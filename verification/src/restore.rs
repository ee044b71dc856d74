use vstd::prelude::*;
use crate::account::{authorize_grants, authorized_transfers, BASIS_POINTS};
use crate::ledger::{grants_of, pending_for};
use crate::model::{
    has_key, lemma_position_of_present, lemma_value_after_update, position, same_keys,
};
use crate::authorize::{batch_keys, dispatched, Dispatch};
use crate::reconcile::TransferResult;
use crate::{Grant, Grants, LedgerView, Name, Transfers};

verus! {

/// The grants and the transfers in flight of one beneficiary after a failed
/// transfer for the grant issued at `issue_at` was undone, if it can be.
pub open spec fn revert_in(grants: Grants, transfers: Transfers, issue_at: u32) -> (
    Grants,
    Transfers,
) {
    if has_key(transfers, issue_at) && has_key(grants, issue_at) && transfers[position(
        transfers,
        issue_at,
    )].1 <= grants[position(grants, issue_at)].1.claimed_amount {
        (
            grants.update(
                position(grants, issue_at),
                (
                    issue_at,
                    grants[position(grants, issue_at)].1.reverted(
                        transfers[position(transfers, issue_at)].1,
                    ),
                ),
            ),
            transfers.remove(position(transfers, issue_at)),
        )
    } else {
        (grants, transfers)
    }
}

/// Undoing a failed transfer touches the grants and the transfers in flight
/// of its beneficiary and of no other, and moves no account.
pub proof fn lemma_revert_is_local(ledger: LedgerView, id: Name, issue_at: u32, other: Name)
    ensures
        same_keys(ledger.accounts, ledger.revert(id, issue_at).accounts),
        same_keys(ledger.pending_transfers, ledger.revert(id, issue_at).pending_transfers),
        ledger.revert(id, issue_at).spare_balance == ledger.spare_balance,
        ledger.revert(id, issue_at).config == ledger.config,
        ledger.revert(id, issue_at).token_id == ledger.token_id,
        grants_of(ledger.revert(id, issue_at).accounts, id) == revert_in(
            grants_of(ledger.accounts, id),
            pending_for(ledger.pending_transfers, id),
            issue_at,
        ).0,
        pending_for(ledger.revert(id, issue_at).pending_transfers, id) == revert_in(
            grants_of(ledger.accounts, id),
            pending_for(ledger.pending_transfers, id),
            issue_at,
        ).1,
        other != id ==> grants_of(ledger.revert(id, issue_at).accounts, other) == grants_of(
            ledger.accounts,
            other,
        ) && pending_for(ledger.revert(id, issue_at).pending_transfers, other) == pending_for(
            ledger.pending_transfers,
            other,
        ),
{
    let grants = grants_of(ledger.accounts, id);
    let transfers = pending_for(ledger.pending_transfers, id);
    if ledger.can_revert(id, issue_at) {
        let at = position(grants, issue_at);
        let amount = ledger.in_flight_for(id, issue_at);
        lemma_value_after_update(
            ledger.accounts,
            id,
            grants.update(at, (issue_at, grants[at].1.reverted(amount))),
            other,
        );
        lemma_value_after_update(
            ledger.pending_transfers,
            id,
            transfers.remove(position(transfers, issue_at)),
            other,
        );
    } else {
        if has_key(transfers, issue_at) {
            assert(has_key(ledger.pending_transfers, id));
        }
        if has_key(grants, issue_at) {
            assert(has_key(ledger.accounts, id));
        }
    }
}

/// The authorization of one beneficiary's orders touches the grants and the
/// transfers in flight of that beneficiary and of no other, and moves no
/// account.
pub proof fn lemma_authorize_for_is_local(
    ledger: LedgerView,
    id: Name,
    percentage: u32,
    other: Name,
)
    ensures
        same_keys(ledger.accounts, ledger.authorize_for(id, percentage).accounts),
        ledger.authorize_for(id, percentage).spare_balance == ledger.spare_balance,
        ledger.authorize_for(id, percentage).config == ledger.config,
        ledger.authorize_for(id, percentage).token_id == ledger.token_id,
        ledger.sent_to(id, percentage) == authorized_transfers(
            grants_of(ledger.accounts, id),
            pending_for(ledger.pending_transfers, id),
            percentage,
        ),
        grants_of(ledger.authorize_for(id, percentage).accounts, id) == authorize_grants(
            grants_of(ledger.accounts, id),
            pending_for(ledger.pending_transfers, id),
            percentage,
        ),
        pending_for(ledger.authorize_for(id, percentage).pending_transfers, id) == if ledger.sent_to(
            id,
            percentage,
        ).len() > 0 {
            ledger.sent_to(id, percentage)
        } else {
            pending_for(ledger.pending_transfers, id)
        },
        other != id ==> grants_of(ledger.authorize_for(id, percentage).accounts, other)
            == grants_of(ledger.accounts, other) && pending_for(
            ledger.authorize_for(id, percentage).pending_transfers,
            other,
        ) == pending_for(ledger.pending_transfers, other),
{
    let grants = grants_of(ledger.accounts, id);
    let transfers = pending_for(ledger.pending_transfers, id);
    if has_key(ledger.accounts, id) {
        let sent = ledger.sent_to(id, percentage);
        lemma_value_after_update(
            ledger.accounts,
            id,
            authorize_grants(grants, transfers, percentage),
            other,
        );
        if sent.len() > 0 {
            crate::model::lemma_value_after_store(ledger.pending_transfers, id, sent, other);
        }
    } else {
        assert(authorize_grants(grants, transfers, percentage) =~= grants);
    }
}

/// Where nothing of any order is settled, an authorization changes no grant
/// and sends nothing.
pub proof fn lemma_nothing_to_send(grants: Grants, transfers: Transfers, percentage: u32)
    requires
        forall|i: int| 0 <= i < grants.len() ==> (#[trigger] grants[i]).1.settled(percentage) == 0,
    ensures
        authorize_grants(grants, transfers, percentage) == grants,
        authorized_transfers(grants, transfers, percentage) == Seq::<(u32, u128)>::empty(),
    decreases grants.len(),
{
    assert(authorize_grants(grants, transfers, percentage) =~= grants) by {
        assert forall|i: int| 0 <= i < grants.len() implies authorize_grants(
            grants,
            transfers,
            percentage,
        )[i] == grants[i] by {
            assert(grants[i].1.settled(percentage) == 0);
        }
    }
    if grants.len() > 0 {
        assert forall|i: int| 0 <= i < grants.drop_last().len() implies (
        #[trigger] grants.drop_last()[i]).1.settled(percentage) == 0 by {
            assert(grants[i].1.settled(percentage) == 0);
        }
        lemma_nothing_to_send(grants.drop_last(), transfers, percentage);
        assert(grants.last().1.settled(percentage) == 0);
    }
}

/// After an authorization nothing of any order is settled by another one.
pub proof fn lemma_authorized_once(grants: Grants, transfers: Transfers, percentage: u32)
    ensures
        forall|i: int|
            0 <= i < grants.len() && !has_key(transfers, grants[i].0) ==> (
            #[trigger] authorize_grants(grants, transfers, percentage)[i]).1.settled(percentage)
                == 0,
{
    assert forall|i: int| 0 <= i < grants.len() && !has_key(transfers, grants[i].0) implies (
    #[trigger] authorize_grants(grants, transfers, percentage)[i]).1.settled(percentage) == 0 by {
        assert(crate::vesting::share_of(0, percentage, BASIS_POINTS) == 0) by (nonlinear_arith)
            requires
                BASIS_POINTS == 10_000,
        ;
    }
}

/// No transfers in flight.
pub open spec fn none_in_flight() -> Transfers {
    Seq::empty()
}

impl Grant {
    /// The grant with what an authorization would settle of its order on
    /// order, and nothing else changed: what is left of an authorization
    /// whose transfer failed.
    pub open spec fn requeued(&self, percentage: u32) -> Grant {
        if self.settled(percentage) == 0 {
            *self
        } else {
            Grant { order_amount: self.settled(percentage) as u128, ..*self }
        }
    }
}

/// The grants of an account with every order cut down to what an
/// authorization would settle of it.
pub open spec fn requeue_grants(grants: Grants, percentage: u32) -> Grants {
    Seq::new(grants.len(), |i: int| (grants[i].0, grants[i].1.requeued(percentage)))
}

/// The grants and the transfers in flight of one beneficiary after failed
/// transfers for the grants of the entries were undone, one after the other.
pub open spec fn revert_each_in(grants: Grants, transfers: Transfers, entries: Transfers) -> (
    Grants,
    Transfers,
)
    decreases entries.len(),
{
    if entries.len() == 0 {
        (grants, transfers)
    } else {
        let earlier = revert_each_in(grants, transfers, entries.drop_last());
        revert_in(earlier.0, earlier.1, entries.last().0)
    }
}

/// What an authorization sends for the first grants of an account is the
/// first part of what it sends for all of them.
pub proof fn lemma_transfers_prefix(
    grants: Grants,
    transfers: Transfers,
    percentage: u32,
    count: int,
)
    requires
        0 <= count <= grants.len(),
    ensures
        authorized_transfers(grants.take(count), transfers, percentage).len()
            <= authorized_transfers(grants, transfers, percentage).len(),
        authorized_transfers(grants.take(count), transfers, percentage) == authorized_transfers(
            grants,
            transfers,
            percentage,
        ).take(authorized_transfers(grants.take(count), transfers, percentage).len() as int),
    decreases grants.len() - count,
{
    let all = authorized_transfers(grants, transfers, percentage);
    let some = authorized_transfers(grants.take(count), transfers, percentage);
    if count == grants.len() {
        assert(grants.take(count) =~= grants);
        assert(all.take(all.len() as int) =~= all);
    } else {
        lemma_transfers_prefix(grants, transfers, percentage, count + 1);
        let more = authorized_transfers(grants.take(count + 1), transfers, percentage);
        assert(grants.take(count + 1).drop_last() =~= grants.take(count));
        assert(some =~= all.take(some.len() as int)) by {
            assert(more == all.take(more.len() as int));
            if more.len() != some.len() {
                assert(some == more.drop_last());
            }
        }
    }
}

/// Undoing, in their order, the transfers that an authorization sent for the
/// first grants of an account leaves those grants requeued, the other grants
/// as the authorization left them, and in flight what was sent for those.
pub proof fn lemma_restore_first(grants: Grants, percentage: u32, count: int)
    requires
        crate::model::distinct_keys(grants),
        crate::account::each_wf(grants),
        percentage <= BASIS_POINTS,
        0 <= count <= grants.len(),
    ensures
        revert_each_in(
            authorize_grants(grants, none_in_flight(), percentage),
            authorized_transfers(grants, none_in_flight(), percentage),
            authorized_transfers(grants.take(count), none_in_flight(), percentage),
        ) == (
            Seq::new(
                grants.len(),
                |i: int|
                    if i < count {
                        (grants[i].0, grants[i].1.requeued(percentage))
                    } else {
                        authorize_grants(grants, none_in_flight(), percentage)[i]
                    },
            ),
            authorized_transfers(grants, none_in_flight(), percentage).skip(
                authorized_transfers(grants.take(count), none_in_flight(), percentage).len() as int,
            ),
        ),
    decreases count,
{
    let paid = authorize_grants(grants, none_in_flight(), percentage);
    let sent = authorized_transfers(grants, none_in_flight(), percentage);
    let first = authorized_transfers(grants.take(count), none_in_flight(), percentage);
    let target = Seq::new(
        grants.len(),
        |i: int|
            if i < count {
                (grants[i].0, grants[i].1.requeued(percentage))
            } else {
                paid[i]
            },
    );
    if count == 0 {
        assert(grants.take(0) =~= Seq::empty());
        assert(target =~= paid);
        assert(sent.skip(0) =~= sent);
        assert(revert_each_in(paid, sent, first) == (target, sent.skip(first.len() as int)));
    } else {
        let at = count - 1;
        let fewer = authorized_transfers(grants.take(at), none_in_flight(), percentage);
        let before = Seq::new(
            grants.len(),
            |i: int|
                if i < at {
                    (grants[i].0, grants[i].1.requeued(percentage))
                } else {
                    paid[i]
                },
        );
        lemma_restore_first(grants, percentage, at);
        assert(grants.take(count).drop_last() =~= grants.take(at));
        assert(grants.take(count).last() == grants[at]);
        let (issue_at, grant) = grants[at];
        assert(grant.wf());
        crate::vesting::lemma_share_is_bounded(grant.order_amount, percentage, BASIS_POINTS);
        assert(!has_key(none_in_flight(), issue_at));
        if grant.settled(percentage) != 0 {
            let amount = grant.settled(percentage) as u128;
            assert(first == fewer.push((issue_at, amount)));
            lemma_transfers_prefix(grants, none_in_flight(), percentage, count);
            let rest = sent.skip(fewer.len() as int);
            assert(sent[fewer.len() as int] == first[fewer.len() as int]);
            assert(rest[0] == (issue_at, amount));
            crate::model::lemma_first_is_position(rest, issue_at, 0);
            assert forall|i: int, j: int| 0 <= i < j < before.len() implies (
            #[trigger] before[i]).0 != (#[trigger] before[j]).0 by {
                assert(grants[i].0 != grants[j].0);
            }
            crate::model::lemma_distinct_position(before, at);
            assert(before[at] == paid[at]);
            assert(paid[at].1 == grant.bought_out(percentage));
            assert(paid[at].1.reverted(amount) == grant.requeued(percentage));
            assert(before.update(at, (issue_at, grant.requeued(percentage))) =~= target);
            assert(rest.remove(0) =~= sent.skip(first.len() as int));
            assert(first.drop_last() =~= fewer);
            assert(revert_each_in(paid, sent, fewer) == (before, rest));
            assert(revert_each_in(paid, sent, first) == revert_in(before, rest, issue_at));
            assert(position(rest, issue_at) == 0);
            assert(position(before, issue_at) == at);
            assert(revert_in(before, rest, issue_at) == (target, sent.skip(first.len() as int)));
        } else {
            assert(first == fewer);
            assert(target =~= before);
            assert(revert_each_in(paid, sent, first) == (target, sent.skip(first.len() as int)));
        }
    }
}

/// Results of transfers that have all failed.
pub open spec fn failures(count: nat) -> Seq<TransferResult> {
    Seq::new(count, |i: int| TransferResult::Failed)
}

impl LedgerView {
    /// The ledger after failed transfers to one beneficiary, for the grants
    /// of the entries, were undone one after the other.
    pub open spec fn revert_each(self, id: Name, entries: Transfers) -> LedgerView
        decreases entries.len(),
    {
        if entries.len() == 0 {
            self
        } else {
            self.revert_each(id, entries.drop_last()).revert(id, entries.last().0)
        }
    }
}

/// Undoing failed transfers to one beneficiary touches the grants and the
/// transfers in flight of that beneficiary and of no other, and moves no
/// account.
pub proof fn lemma_revert_each_is_local(
    ledger: LedgerView,
    id: Name,
    entries: Transfers,
    other: Name,
)
    ensures
        same_keys(ledger.accounts, ledger.revert_each(id, entries).accounts),
        ledger.revert_each(id, entries).spare_balance == ledger.spare_balance,
        ledger.revert_each(id, entries).config == ledger.config,
        ledger.revert_each(id, entries).token_id == ledger.token_id,
        (
            grants_of(ledger.revert_each(id, entries).accounts, id),
            pending_for(ledger.revert_each(id, entries).pending_transfers, id),
        ) == revert_each_in(
            grants_of(ledger.accounts, id),
            pending_for(ledger.pending_transfers, id),
            entries,
        ),
        other != id ==> grants_of(ledger.revert_each(id, entries).accounts, other) == grants_of(
            ledger.accounts,
            other,
        ) && pending_for(ledger.revert_each(id, entries).pending_transfers, other) == pending_for(
            ledger.pending_transfers,
            other,
        ),
    decreases entries.len(),
{
    if entries.len() > 0 {
        let earlier = ledger.revert_each(id, entries.drop_last());
        lemma_revert_each_is_local(ledger, id, entries.drop_last(), other);
        lemma_revert_is_local(earlier, id, entries.last().0, other);
        assert(same_keys(ledger.accounts, earlier.revert(id, entries.last().0).accounts)) by {
            assert forall|i: int| 0 <= i < ledger.accounts.len() implies (
            #[trigger] ledger.accounts[i]).0 == (#[trigger] earlier.revert(
                id,
                entries.last().0,
            ).accounts[i]).0 by {
                assert(ledger.accounts[i].0 == earlier.accounts[i].0);
            }
        }
    } else {
        assert(same_keys(ledger.accounts, ledger.accounts));
    }
}

/// Undoing the transfers of a batch that have all failed, where the batch is
/// made of the transfers to one beneficiary, is undoing those one after the
/// other.
pub proof fn lemma_revert_failed_for_one(ledger: LedgerView, id: Name, entries: Transfers)
    ensures
        ledger.revert_failed(
            batch_keys(dispatched(id, entries)),
            failures(entries.len()),
        ) == ledger.revert_each(id, entries),
    decreases entries.len(),
{
    let keys = batch_keys(dispatched(id, entries));
    if entries.len() > 0 {
        lemma_revert_failed_for_one(ledger, id, entries.drop_last());
        assert(keys.drop_last() =~= batch_keys(dispatched(id, entries.drop_last())));
        assert(failures(entries.len()).drop_last() =~= failures(entries.drop_last().len()));
        assert(keys.last() == (id, entries.last().0));
        assert(failures(entries.len()).last() == TransferResult::Failed);
    }
}

/// Undoing the failed transfers of two batches in a row is undoing those of
/// the first and then those of the second.
pub proof fn lemma_revert_failed_in_a_row(
    ledger: LedgerView,
    first: Seq<(Name, u32)>,
    second: Seq<(Name, u32)>,
)
    ensures
        ledger.revert_failed(first + second, failures(first.len() + second.len()))
            == ledger.revert_failed(first, failures(first.len())).revert_failed(
            second,
            failures(second.len()),
        ),
    decreases second.len(),
{
    if second.len() > 0 {
        lemma_revert_failed_in_a_row(ledger, first, second.drop_last());
        assert((first + second).drop_last() =~= first + second.drop_last());
        assert(failures(first.len() + second.len()).drop_last() =~= failures(
            first.len() + second.drop_last().len(),
        ));
        assert(failures(second.len()).drop_last() =~= failures(second.drop_last().len()));
        assert((first + second).last() == second.last());
        assert(failures(first.len() + second.len()).last() == TransferResult::Failed);
        assert(failures(second.len()).last() == TransferResult::Failed);
    } else {
        assert(first + second =~= first);
    }
}

/// A name is among some names if it is the last of them or among the others.
pub proof fn lemma_contains_last(names: Seq<Name>, name: Name)
    requires
        names.len() > 0,
    ensures
        names.contains(name) == (names.drop_last().contains(name) || names.last() == name),
{
    if names.contains(name) {
        let at = choose|i: int| 0 <= i < names.len() && names[i] == name;
        if at < names.len() - 1 {
            assert(names.drop_last()[at] == name);
        }
    }
    if names.drop_last().contains(name) {
        let at = choose|i: int| 0 <= i < names.drop_last().len() && names.drop_last()[i] == name;
        assert(names[at] == name);
    }
    if names.last() == name {
        assert(names[names.len() - 1] == name);
    }
}

/// What an authorization sends to a beneficiary the first time it comes to
/// that beneficiary.
pub open spec fn first_sent(ledger: LedgerView, id: Name, percentage: u32) -> Transfers {
    authorized_transfers(grants_of(ledger.accounts, id), none_in_flight(), percentage)
}

/// The grants of a beneficiary after an authorization has come to that
/// beneficiary.
pub open spec fn first_paid(ledger: LedgerView, id: Name, percentage: u32) -> Grants {
    authorize_grants(grants_of(ledger.accounts, id), none_in_flight(), percentage)
}

/// After an authorization that started with nothing in flight, every
/// beneficiary that it named has the grants and the transfers in flight that
/// one authorization of that beneficiary's orders leaves; the others have
/// what they had.
pub proof fn lemma_authorized_projection(
    ledger: LedgerView,
    ids: Seq<Name>,
    percentage: u32,
    name: Name,
)
    requires
        ledger.pending_transfers == Seq::<(Name, Transfers)>::empty(),
        percentage <= BASIS_POINTS,
    ensures
        same_keys(ledger.accounts, ledger.authorize_all(ids, percentage).accounts),
        ledger.authorize_all(ids, percentage).spare_balance == ledger.spare_balance,
        ledger.authorize_all(ids, percentage).config == ledger.config,
        ledger.authorize_all(ids, percentage).token_id == ledger.token_id,
        grants_of(ledger.authorize_all(ids, percentage).accounts, name) == if ids.contains(name) {
            first_paid(ledger, name, percentage)
        } else {
            grants_of(ledger.accounts, name)
        },
        pending_for(ledger.authorize_all(ids, percentage).pending_transfers, name)
            == if ids.contains(name) {
            first_sent(ledger, name, percentage)
        } else {
            none_in_flight()
        },
        ledger.authorize_all(ids, percentage).sent_to(name, percentage) == if ids.contains(name) {
            none_in_flight()
        } else {
            first_sent(ledger, name, percentage)
        },
    decreases ids.len(),
{
    let reached = ledger.authorize_all(ids, percentage);
    if ids.len() == 0 {
        assert(same_keys(ledger.accounts, ledger.accounts));
        lemma_authorize_for_is_local(ledger, name, percentage, name);
    } else {
        let last = ids.last();
        let earlier = ledger.authorize_all(ids.drop_last(), percentage);
        lemma_authorized_projection(ledger, ids.drop_last(), percentage, name);
        lemma_authorized_projection(ledger, ids.drop_last(), percentage, last);
        lemma_authorize_for_is_local(earlier, last, percentage, name);
        lemma_contains_last(ids, name);
        lemma_contains_last(ids, last);
        assert(same_keys(ledger.accounts, reached.accounts)) by {
            assert forall|i: int| 0 <= i < ledger.accounts.len() implies (
            #[trigger] ledger.accounts[i]).0 == (#[trigger] reached.accounts[i]).0 by {
                assert(ledger.accounts[i].0 == earlier.accounts[i].0);
            }
        }
        let paid = first_paid(ledger, last, percentage);
        lemma_authorized_once(grants_of(ledger.accounts, last), none_in_flight(), percentage);
        assert forall|i: int| 0 <= i < paid.len() implies (#[trigger] paid[i]).1.settled(percentage)
            == 0 by {
            assert(!has_key(none_in_flight(), grants_of(ledger.accounts, last)[i].0));
        }
        lemma_nothing_to_send(paid, first_sent(ledger, last, percentage), percentage);
        lemma_nothing_to_send(paid, none_in_flight(), percentage);
        lemma_authorize_for_is_local(reached, name, percentage, name);
        if name == last {
            if first_sent(ledger, last, percentage).len() == 0 {
                assert(first_sent(ledger, last, percentage) =~= none_in_flight());
            }
        } else {
            if ids.contains(name) {
                let mine = first_paid(ledger, name, percentage);
                lemma_authorized_once(
                    grants_of(ledger.accounts, name),
                    none_in_flight(),
                    percentage,
                );
                assert forall|i: int| 0 <= i < mine.len() implies (#[trigger] mine[i]).1.settled(
                    percentage,
                ) == 0 by {
                    assert(!has_key(none_in_flight(), grants_of(ledger.accounts, name)[i].0));
                }
                lemma_nothing_to_send(mine, first_sent(ledger, name, percentage), percentage);
            }
        }
    }
}

/// The keys of two batches in a row are the keys of the first and then
/// those of the second.
proof fn lemma_keys_in_a_row(first: Seq<Dispatch>, second: Seq<Dispatch>)
    ensures
        batch_keys(first + second) == batch_keys(first) + batch_keys(second),
{
    assert(batch_keys(first + second) =~= batch_keys(first) + batch_keys(second));
}

/// After the transfers that an authorization sent to the first of the
/// beneficiaries it named have all failed and were undone, every one of
/// those beneficiaries has its grants requeued and nothing in flight; the
/// others have what the authorization left them.
pub proof fn lemma_reverted_projection(
    ledger: LedgerView,
    ids: Seq<Name>,
    count: int,
    percentage: u32,
    name: Name,
)
    requires
        ledger.wf(),
        ledger.pending_transfers == Seq::<(Name, Transfers)>::empty(),
        percentage <= BASIS_POINTS,
        0 <= count <= ids.len(),
    ensures
        ({
            let paid = ledger.authorize_all(ids, percentage);
            let batch = ledger.batch(ids.take(count), percentage);
            let undone = paid.revert_failed(batch_keys(batch), failures(batch.len()));
            &&& same_keys(paid.accounts, undone.accounts)
            &&& undone.spare_balance == paid.spare_balance
            &&& undone.config == paid.config
            &&& undone.token_id == paid.token_id
            &&& grants_of(undone.accounts, name) == if ids.take(count).contains(name) {
                requeue_grants(grants_of(ledger.accounts, name), percentage)
            } else {
                grants_of(paid.accounts, name)
            }
            &&& pending_for(undone.pending_transfers, name) == if ids.take(count).contains(name) {
                none_in_flight()
            } else {
                pending_for(paid.pending_transfers, name)
            }
        }),
    decreases count,
{
    let paid = ledger.authorize_all(ids, percentage);
    let first = ids.take(count);
    let batch = ledger.batch(first, percentage);
    let undone = paid.revert_failed(batch_keys(batch), failures(batch.len()));
    if count == 0 {
        assert(first =~= Seq::empty());
        assert(batch_keys(batch) =~= Seq::empty());
        assert(same_keys(paid.accounts, paid.accounts));
    } else {
        let last = ids[count - 1];
        let fewer = ids.take(count - 1);
        assert(first.drop_last() =~= fewer);
        assert(first.last() == last);
        let sent = ledger.authorize_all(fewer, percentage).sent_to(last, percentage);
        let before = ledger.batch(fewer, percentage);
        let earlier = paid.revert_failed(batch_keys(before), failures(before.len()));
        assert(batch == before + dispatched(last, sent));
        lemma_keys_in_a_row(before, dispatched(last, sent));
        lemma_revert_failed_in_a_row(
            paid,
            batch_keys(before),
            batch_keys(dispatched(last, sent)),
        );
        lemma_revert_failed_for_one(earlier, last, sent);
        assert(undone == earlier.revert_each(last, sent));
        lemma_reverted_projection(ledger, ids, count - 1, percentage, name);
        lemma_reverted_projection(ledger, ids, count - 1, percentage, last);
        lemma_authorized_projection(ledger, fewer, percentage, last);
        lemma_authorized_projection(ledger, ids, percentage, last);
        lemma_contains_last(first, name);
        lemma_contains_last(first, last);
        lemma_revert_each_is_local(earlier, last, sent, name);
        assert(same_keys(paid.accounts, undone.accounts)) by {
            assert forall|i: int| 0 <= i < paid.accounts.len() implies (
            #[trigger] paid.accounts[i]).0 == (#[trigger] undone.accounts[i]).0 by {
                assert(paid.accounts[i].0 == earlier.accounts[i].0);
            }
        }
        if !fewer.contains(last) {
            assert(ids.contains(last)) by {
                assert(ids[count - 1] == last);
            }
            let grants = grants_of(ledger.accounts, last);
            assert(sent == first_sent(ledger, last, percentage));
            if has_key(ledger.accounts, last) {
                lemma_position_of_present(ledger.accounts, last);
                assert(crate::grants_wf(
                    ledger.accounts[position(ledger.accounts, last)].1,
                    ledger.config,
                ));
            }
            lemma_restore_first(grants, percentage, grants.len() as int);
            assert(grants.take(grants.len() as int) =~= grants);
            assert(Seq::new(
                grants.len(),
                |i: int|
                    if i < grants.len() {
                        (grants[i].0, grants[i].1.requeued(percentage))
                    } else {
                        authorize_grants(grants, none_in_flight(), percentage)[i]
                    },
            ) =~= requeue_grants(grants, percentage));
            assert(sent.skip(sent.len() as int) =~= none_in_flight());
        }
    }
}

/// The accounts with the orders of the beneficiaries named cut down to what
/// an authorization would settle of them.
pub open spec fn requeue_accounts(accounts: Seq<(Name, Grants)>, ids: Seq<Name>, percentage: u32)
    -> Seq<(Name, Grants)> {
    Seq::new(
        accounts.len(),
        |i: int|
            if ids.contains(accounts[i].0) {
                (accounts[i].0, requeue_grants(accounts[i].1, percentage))
            } else {
                accounts[i]
            },
    )
}

/// An order that is settled as a whole is requeued as it was.
pub proof fn lemma_requeued_as_a_whole(grants: Grants)
    ensures
        requeue_grants(grants, BASIS_POINTS) == grants,
{
    assert forall|i: int| 0 <= i < grants.len() implies (#[trigger] requeue_grants(
        grants,
        BASIS_POINTS,
    )[i]) == grants[i] by {
        let order = grants[i].1.order_amount as int;
        assert(order * 10_000 / 10_000 == order) by (nonlinear_arith);
    }
    assert(requeue_grants(grants, BASIS_POINTS) =~= grants);
}

/// Where every transfer of an authorized batch fails, the reconciliation
/// takes back all that the authorization did to what counts as claimed: the
/// ledger is left with the accounts and the spare pool from before the
/// authorization and with nothing in flight, but that of each order that
/// was sent only what was sent is on order again. An authorization of the
/// orders as a whole, at all basis points, is undone altogether.
pub proof fn law_failed_batch_is_undone(
    ledger: LedgerView,
    ids: Seq<Name>,
    percentage: u32,
    results: Seq<TransferResult>,
)
    requires
        ledger.wf(),
        0 < percentage <= BASIS_POINTS,
        results.len() == ledger.authorized_batch(ids, percentage).len(),
        forall|i: int| 0 <= i < results.len() ==> results[i] == TransferResult::Failed,
    ensures
        ({
            let undone = ledger.authorize(ids, percentage).reconcile(
                batch_keys(ledger.authorized_batch(ids, percentage)),
                results,
            );
            &&& undone == LedgerView {
                accounts: requeue_accounts(ledger.accounts, ids, percentage),
                ..ledger.without_pending()
            }
            &&& percentage == BASIS_POINTS ==> undone == ledger.without_pending()
        }),
{
    let cleared = ledger.without_pending();
    let batch = cleared.batch(ids, percentage);
    let paid = cleared.authorize_all(ids, percentage);
    let reverted = paid.revert_failed(batch_keys(batch), failures(batch.len()));
    let target = requeue_accounts(ledger.accounts, ids, percentage);
    crate::authorize::lemma_without_pending(ledger);
    assert(results =~= failures(batch.len()));
    assert(ids.take(ids.len() as int) =~= ids);
    lemma_authorized_projection(cleared, ids, percentage, ledger.token_id);
    lemma_reverted_projection(cleared, ids, ids.len() as int, percentage, ledger.token_id);
    assert forall|i: int| 0 <= i < target.len() implies reverted.accounts[i] == target[i] by {
        let name = ledger.accounts[i].0;
        lemma_authorized_projection(cleared, ids, percentage, name);
        lemma_reverted_projection(cleared, ids, ids.len() as int, percentage, name);
        crate::model::lemma_distinct_position(ledger.accounts, i);
        assert(reverted.accounts[i].0 == name) by {
            assert(cleared.accounts[i].0 == paid.accounts[i].0);
            assert(paid.accounts[i].0 == reverted.accounts[i].0);
        }
        assert(crate::model::distinct_keys(reverted.accounts)) by {
            assert forall|a: int, b: int| 0 <= a < b < reverted.accounts.len() implies (
            #[trigger] reverted.accounts[a]).0 != (#[trigger] reverted.accounts[b]).0 by {
                assert(cleared.accounts[a].0 == paid.accounts[a].0);
                assert(paid.accounts[a].0 == reverted.accounts[a].0);
                assert(cleared.accounts[b].0 == paid.accounts[b].0);
                assert(paid.accounts[b].0 == reverted.accounts[b].0);
                assert(ledger.accounts[a].0 != ledger.accounts[b].0);
            }
        }
        crate::model::lemma_distinct_position(reverted.accounts, i);
    }
    assert(reverted.accounts =~= target);
    if percentage == BASIS_POINTS {
        assert forall|i: int| 0 <= i < target.len() implies target[i] == ledger.accounts[i] by {
            lemma_requeued_as_a_whole(ledger.accounts[i].1);
        }
        assert(target =~= ledger.accounts);
    }
}

} // verus!
