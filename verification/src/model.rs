use vstd::prelude::*;

verus! {

/// Whether no key occurs twice among the entries.
pub open spec fn distinct_keys<K, V>(entries: Seq<(K, V)>) -> bool {
    forall|i: int, j: int|
        0 <= i < j < entries.len() ==> (#[trigger] entries[i]).0 != (#[trigger] entries[j]).0
}

/// Whether some entry has the key.
pub open spec fn has_key<K, V>(entries: Seq<(K, V)>, key: K) -> bool {
    exists|i: int| 0 <= i < entries.len() && (#[trigger] entries[i]).0 == key
}

/// Whether `index` is where the key occurs first.
pub open spec fn is_first<K, V>(entries: Seq<(K, V)>, key: K, index: int) -> bool {
    &&& 0 <= index < entries.len()
    &&& entries[index].0 == key
    &&& forall|j: int| 0 <= j < index ==> (#[trigger] entries[j]).0 != key
}

/// Where the key occurs first; meaningful only where some entry has it.
pub open spec fn position<K, V>(entries: Seq<(K, V)>, key: K) -> int {
    choose|index: int| is_first(entries, key, index)
}

/// The value stored under the key, if any.
pub open spec fn value_of<K, V>(entries: Seq<(K, V)>, key: K) -> Option<V> {
    if has_key(entries, key) {
        Some(entries[position(entries, key)].1)
    } else {
        None
    }
}

/// The entries with `value` stored under `key`: in place of the old value
/// where the key is present, at the end otherwise.
pub open spec fn with_value<K, V>(entries: Seq<(K, V)>, key: K, value: V) -> Seq<(K, V)> {
    if has_key(entries, key) {
        entries.update(position(entries, key), (key, value))
    } else {
        entries.push((key, value))
    }
}

pub proof fn lemma_first_is_position<K, V>(entries: Seq<(K, V)>, key: K, index: int)
    requires
        is_first(entries, key, index),
    ensures
        has_key(entries, key),
        position(entries, key) == index,
{
    let chosen = position(entries, key);
    assert(is_first(entries, key, chosen));
    if chosen < index {
        assert(entries[chosen].0 != key);
    }
    if index < chosen {
        assert(entries[index].0 != key);
    }
}

pub proof fn lemma_position_of_present<K, V>(entries: Seq<(K, V)>, key: K)
    requires
        has_key(entries, key),
    ensures
        is_first(entries, key, position(entries, key)),
    decreases entries.len(),
{
    let some = choose|i: int| 0 <= i < entries.len() && (#[trigger] entries[i]).0 == key;
    lemma_first_exists(entries, key, some);
}

proof fn lemma_first_exists<K, V>(entries: Seq<(K, V)>, key: K, bound: int)
    requires
        0 <= bound < entries.len(),
        entries[bound].0 == key,
    ensures
        exists|index: int| is_first(entries, key, index),
    decreases bound,
{
    if forall|j: int| 0 <= j < bound ==> (#[trigger] entries[j]).0 != key {
        assert(is_first(entries, key, bound));
    } else {
        let earlier = choose|j: int| 0 <= j < bound && (#[trigger] entries[j]).0 == key;
        lemma_first_exists(entries, key, earlier);
    }
}

/// With distinct keys, the entry that has the key is the first that has it.
pub proof fn lemma_distinct_position<K, V>(entries: Seq<(K, V)>, index: int)
    requires
        distinct_keys(entries),
        0 <= index < entries.len(),
    ensures
        has_key(entries, entries[index].0),
        position(entries, entries[index].0) == index,
{
    assert forall|j: int| 0 <= j < index implies (#[trigger] entries[j]).0 != entries[index].0 by {
        assert(entries[j].0 != entries[index].0);
    }
    lemma_first_is_position(entries, entries[index].0, index);
}

/// The sum of the amounts.
pub open spec fn total_of(amounts: Seq<nat>) -> nat
    decreases amounts.len(),
{
    if amounts.len() == 0 {
        0
    } else {
        total_of(amounts.drop_last()) + amounts.last()
    }
}

pub proof fn lemma_total_push(amounts: Seq<nat>, amount: nat)
    ensures
        total_of(amounts.push(amount)) == total_of(amounts) + amount,
{
    assert(amounts.push(amount).drop_last() =~= amounts);
}

pub proof fn lemma_total_update(amounts: Seq<nat>, index: int, amount: nat)
    requires
        0 <= index < amounts.len(),
    ensures
        total_of(amounts.update(index, amount)) + amounts[index] == total_of(amounts) + amount,
    decreases amounts.len(),
{
    let after = amounts.update(index, amount);
    if index == amounts.len() - 1 {
        assert(after.drop_last() =~= amounts.drop_last());
    } else {
        lemma_total_update(amounts.drop_last(), index, amount);
        assert(after.drop_last() =~= amounts.drop_last().update(index, amount));
    }
}

pub proof fn lemma_total_remove(amounts: Seq<nat>, index: int)
    requires
        0 <= index < amounts.len(),
    ensures
        total_of(amounts.remove(index)) + amounts[index] == total_of(amounts),
    decreases amounts.len(),
{
    let after = amounts.remove(index);
    if index == amounts.len() - 1 {
        assert(after =~= amounts.drop_last());
    } else {
        lemma_total_remove(amounts.drop_last(), index);
        assert(after.drop_last() =~= amounts.drop_last().remove(index));
        assert(after.last() == amounts.last());
    }
}

/// No single amount exceeds the sum.
pub proof fn lemma_total_bounds_each(amounts: Seq<nat>, index: int)
    requires
        0 <= index < amounts.len(),
    ensures
        amounts[index] <= total_of(amounts),
    decreases amounts.len(),
{
    if index < amounts.len() - 1 {
        lemma_total_bounds_each(amounts.drop_last(), index);
    }
}

/// The sum of a prefix grows by the next amount.
pub proof fn lemma_total_take(amounts: Seq<nat>, count: int)
    requires
        0 <= count < amounts.len(),
    ensures
        total_of(amounts.take(count + 1)) == total_of(amounts.take(count)) + amounts[count],
{
    assert(amounts.take(count + 1).drop_last() =~= amounts.take(count));
}

/// Pointwise smaller amounts have a smaller sum.
pub proof fn lemma_total_is_monotonic(low: Seq<nat>, high: Seq<nat>)
    requires
        low.len() == high.len(),
        forall|i: int| 0 <= i < low.len() ==> low[i] <= high[i],
    ensures
        total_of(low) <= total_of(high),
    decreases low.len(),
{
    if low.len() > 0 {
        lemma_total_is_monotonic(low.drop_last(), high.drop_last());
    }
}

/// The sum of a prefix does not exceed the sum of the whole.
pub proof fn lemma_total_prefix(amounts: Seq<nat>, count: int)
    requires
        0 <= count <= amounts.len(),
    ensures
        total_of(amounts.take(count)) <= total_of(amounts),
    decreases amounts.len() - count,
{
    if count < amounts.len() {
        lemma_total_take(amounts, count);
        lemma_total_prefix(amounts, count + 1);
    } else {
        assert(amounts.take(count) =~= amounts);
    }
}

/// Where each amount of one sequence is the sum of the amounts at its place
/// in two others, so are the sums.
pub proof fn lemma_total_is_additive(left: Seq<nat>, right: Seq<nat>, both: Seq<nat>)
    requires
        left.len() == both.len(),
        right.len() == both.len(),
        forall|i: int| 0 <= i < both.len() ==> left[i] + right[i] == both[i],
    ensures
        total_of(left) + total_of(right) == total_of(both),
    decreases both.len(),
{
    if both.len() > 0 {
        lemma_total_is_additive(left.drop_last(), right.drop_last(), both.drop_last());
    }
}

/// Whether two sequences of entries have the same keys at the same places.
pub open spec fn same_keys<K, V>(left: Seq<(K, V)>, right: Seq<(K, V)>) -> bool {
    &&& left.len() == right.len()
    &&& forall|i: int| 0 <= i < left.len() ==> (#[trigger] left[i]).0 == (#[trigger] right[i]).0
}

/// Entries with the same keys at the same places hold a key at the same
/// place.
pub proof fn lemma_same_keys<K, V>(left: Seq<(K, V)>, right: Seq<(K, V)>, key: K)
    requires
        same_keys(left, right),
    ensures
        has_key(left, key) == has_key(right, key),
        has_key(left, key) ==> position(left, key) == position(right, key),
{
    if has_key(left, key) {
        lemma_position_of_present(left, key);
        let at = position(left, key);
        assert(right[at].0 == key);
        assert forall|j: int| 0 <= j < at implies (#[trigger] right[j]).0 != key by {
            assert(left[j].0 != key);
        }
        lemma_first_is_position(right, key, at);
    }
    if has_key(right, key) {
        lemma_position_of_present(right, key);
        let at = position(right, key);
        assert(left[at].0 == key);
        assert forall|j: int| 0 <= j < at implies (#[trigger] left[j]).0 != key by {
            assert(right[j].0 != key);
        }
        lemma_first_is_position(left, key, at);
    }
}

/// Replacing the value under a key that is present changes what is stored
/// under that key and under no other.
pub proof fn lemma_value_after_update<K, V>(entries: Seq<(K, V)>, key: K, value: V, other: K)
    requires
        has_key(entries, key),
    ensures
        same_keys(entries, entries.update(position(entries, key), (key, value))),
        value_of(entries.update(position(entries, key), (key, value)), key) == Some(value),
        other != key ==> value_of(entries.update(position(entries, key), (key, value)), other)
            == value_of(entries, other),
{
    lemma_position_of_present(entries, key);
    let at = position(entries, key);
    let after = entries.update(at, (key, value));
    assert(same_keys(entries, after));
    lemma_same_keys(entries, after, key);
    lemma_same_keys(entries, after, other);
    if other != key && has_key(entries, other) {
        lemma_position_of_present(entries, other);
    }
}

/// Adding a value under a key that is absent changes what is stored under
/// that key and under no other.
pub proof fn lemma_value_after_push<K, V>(entries: Seq<(K, V)>, key: K, value: V, other: K)
    requires
        !has_key(entries, key),
    ensures
        value_of(entries.push((key, value)), key) == Some(value),
        other != key ==> value_of(entries.push((key, value)), other) == value_of(entries, other),
{
    let after = entries.push((key, value));
    assert forall|j: int| 0 <= j < entries.len() implies (#[trigger] after[j]).0 != key by {
        assert(entries[j].0 != key);
    }
    lemma_first_is_position(after, key, entries.len() as int);
    if other != key {
        if has_key(entries, other) {
            lemma_position_of_present(entries, other);
            let at = position(entries, other);
            assert(after[at].0 == other);
            assert forall|j: int| 0 <= j < at implies (#[trigger] after[j]).0 != other by {
                assert(entries[j].0 != other);
            }
            lemma_first_is_position(after, other, at);
        } else {
            if has_key(after, other) {
                let at = choose|i: int| 0 <= i < after.len() && (#[trigger] after[i]).0 == other;
                assert(entries[at].0 == other);
            }
        }
    }
}

/// Storing a value under a key changes what is stored under that key and
/// under no other.
pub proof fn lemma_value_after_store<K, V>(entries: Seq<(K, V)>, key: K, value: V, other: K)
    ensures
        value_of(with_value(entries, key, value), key) == Some(value),
        other != key ==> value_of(with_value(entries, key, value), other) == value_of(
            entries,
            other,
        ),
{
    if has_key(entries, key) {
        lemma_value_after_update(entries, key, value, other);
    } else {
        lemma_value_after_push(entries, key, value, other);
    }
}

} // verus!
