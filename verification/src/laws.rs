//! What holds of the table over whole sequences of observations.

use vstd::prelude::*;
use crate::data::{
    bumped, has_key, index_of, keys_distinct, lemma_stored, lemma_table_keys, lemma_table_value,
    record, recorded, table_of, totals, AddressPair, Ipv4StatsKey, Ipv6StatsKey, StatsKey,
    StatsValue,
};

verus! {

/// The table after the observations `obs`, one after the other, starting
/// from `table`.
pub open spec fn record_all(table: Map<StatsKey, StatsValue>, obs: Seq<(StatsKey, u128)>) -> Map<
    StatsKey,
    StatsValue,
>
    decreases obs.len(),
{
    if obs.len() == 0 {
        table
    } else {
        record(record_all(table, obs.drop_last()), obs.last().0, obs.last().1)
    }
}

/// The number of observations of `key` among `obs`.
pub open spec fn occurrences(obs: Seq<(StatsKey, u128)>, key: StatsKey) -> nat
    decreases obs.len(),
{
    if obs.len() == 0 {
        0
    } else if obs.last().0 == key {
        occurrences(obs.drop_last(), key) + 1
    } else {
        occurrences(obs.drop_last(), key)
    }
}

/// The sum of the declared lengths of the observations of `key` among `obs`.
pub open spec fn volume(obs: Seq<(StatsKey, u128)>, key: StatsKey) -> nat
    decreases obs.len(),
{
    if obs.len() == 0 {
        0
    } else if obs.last().0 == key {
        volume(obs.drop_last(), key) + obs.last().1 as nat
    } else {
        volume(obs.drop_last(), key)
    }
}

/// After any sequence of observations, the count of a pair has grown by the
/// number of observations of exactly that pair and its length by the sum of
/// their declared lengths; a pair is in the table if it was there before or
/// has been observed. This holds as long as the two sums fit in 128 bits.
pub proof fn lemma_totals_are_sums(
    table: Map<StatsKey, StatsValue>,
    obs: Seq<(StatsKey, u128)>,
    key: StatsKey,
)
    requires
        totals(table, key).total_count + occurrences(obs, key) <= u128::MAX,
        totals(table, key).total_length + volume(obs, key) <= u128::MAX,
    ensures
        totals(record_all(table, obs), key).total_count == totals(table, key).total_count
            + occurrences(obs, key),
        totals(record_all(table, obs), key).total_length == totals(table, key).total_length
            + volume(obs, key),
        record_all(table, obs).contains_key(key) <==> table.contains_key(key) || occurrences(
            obs,
            key,
        ) > 0,
    decreases obs.len(),
{
    if obs.len() > 0 {
        lemma_totals_are_sums(table, obs.drop_last(), key);
    }
}

/// The key with source and destination exchanged.
pub open spec fn reversed(key: StatsKey) -> StatsKey {
    match key.0 {
        AddressPair::V4(k) => StatsKey(
            AddressPair::V4(Ipv4StatsKey { source: k.dest, dest: k.source }),
        ),
        AddressPair::V6(k) => StatsKey(
            AddressPair::V6(Ipv6StatsKey { source: k.dest, dest: k.source }),
        ),
    }
}

/// The source of the key differs from its destination.
pub open spec fn has_direction(key: StatsKey) -> bool {
    match key.0 {
        AddressPair::V4(k) => k.source != k.dest,
        AddressPair::V6(k) => k.source != k.dest,
    }
}

/// Direction is part of the key, in both families: between two different
/// addresses, the pair one way and the pair the other way are two keys, and
/// an observation of one leaves the record of the other as it was. Keys of
/// the two families are never the same key.
pub proof fn lemma_direction_is_kept(
    table: Map<StatsKey, StatsValue>,
    key: StatsKey,
    length: u128,
    v4: Ipv4StatsKey,
    v6: Ipv6StatsKey,
)
    requires
        has_direction(key),
    ensures
        reversed(key) != key,
        record(table, key, length).contains_key(reversed(key)) == table.contains_key(
            reversed(key),
        ),
        totals(record(table, key, length), reversed(key)) == totals(table, reversed(key)),
        StatsKey(AddressPair::V4(v4)) != StatsKey(AddressPair::V6(v6)),
{
}

/// The list of records after the observations `obs`, one after the other,
/// starting from `entries`.
pub open spec fn recorded_all(entries: Seq<(StatsKey, StatsValue)>, obs: Seq<(StatsKey, u128)>) -> Seq<
    (StatsKey, StatsValue),
>
    decreases obs.len(),
{
    if obs.len() == 0 {
        entries
    } else {
        recorded(recorded_all(entries, obs.drop_last()), obs.last().0, obs.last().1)
    }
}

/// The sum of the counts of all records.
pub open spec fn count_sum(entries: Seq<(StatsKey, StatsValue)>) -> nat
    decreases entries.len(),
{
    if entries.len() == 0 {
        0
    } else {
        count_sum(entries.drop_last()) + entries.last().1.total_count as nat
    }
}

/// Replacing one record changes the sum of the counts by the change of that
/// record's count.
proof fn lemma_count_sum_update(
    entries: Seq<(StatsKey, StatsValue)>,
    i: int,
    entry: (StatsKey, StatsValue),
)
    requires
        0 <= i < entries.len(),
    ensures
        count_sum(entries.update(i, entry)) + entries[i].1.total_count == count_sum(entries)
            + entry.1.total_count,
        entries[i].1.total_count <= count_sum(entries),
    decreases entries.len(),
{
    let after = entries.update(i, entry);
    if i == entries.len() - 1 {
        assert(after.drop_last() == entries.drop_last());
    } else {
        assert(after.drop_last() == entries.drop_last().update(i, entry));
        lemma_count_sum_update(entries.drop_last(), i, entry);
    }
}

/// One observation adds one to the sum of the counts, and keeps the keys of
/// the records distinct.
proof fn lemma_count_sum_recorded(
    entries: Seq<(StatsKey, StatsValue)>,
    key: StatsKey,
    length: u128,
)
    requires
        keys_distinct(entries),
        count_sum(entries) < u128::MAX,
    ensures
        count_sum(recorded(entries, key, length)) == count_sum(entries) + 1,
        keys_distinct(recorded(entries, key, length)),
{
    let before = totals(table_of(entries), key);
    let value = bumped(before, length);
    lemma_stored(entries, key, value);
    lemma_table_keys(entries, key);
    if has_key(entries, key) {
        let i = index_of(entries, key);
        lemma_table_value(entries, i);
        lemma_count_sum_update(entries, i, (key, value));
    } else {
        assert(entries.push((key, value)).drop_last() == entries);
    }
}

/// No observation is lost: after any sequence of observations the counts of
/// all records together have grown by the number of observations. This
/// holds as long as that sum fits in 128 bits.
pub proof fn lemma_counts_sum_to_observations(
    entries: Seq<(StatsKey, StatsValue)>,
    obs: Seq<(StatsKey, u128)>,
)
    requires
        keys_distinct(entries),
        count_sum(entries) + obs.len() <= u128::MAX,
    ensures
        count_sum(recorded_all(entries, obs)) == count_sum(entries) + obs.len(),
        keys_distinct(recorded_all(entries, obs)),
    decreases obs.len(),
{
    if obs.len() > 0 {
        lemma_counts_sum_to_observations(entries, obs.drop_last());
        lemma_count_sum_recorded(
            recorded_all(entries, obs.drop_last()),
            obs.last().0,
            obs.last().1,
        );
    }
}

/// The list of records and the table change alike: the table of the list
/// after a sequence of observations is the table after that sequence.
pub proof fn lemma_recorded_all_table(
    entries: Seq<(StatsKey, StatsValue)>,
    obs: Seq<(StatsKey, u128)>,
)
    requires
        keys_distinct(entries),
    ensures
        keys_distinct(recorded_all(entries, obs)),
        table_of(recorded_all(entries, obs)) == record_all(table_of(entries), obs),
    decreases obs.len(),
{
    if obs.len() > 0 {
        lemma_recorded_all_table(entries, obs.drop_last());
        let before = recorded_all(entries, obs.drop_last());
        let key = obs.last().0;
        lemma_stored(before, key, bumped(totals(table_of(before), key), obs.last().1));
    }
}

} // verus!
