//! The aggregation table and its keys.

use vstd::prelude::*;

verus! {

/// An ordered pair of IPv4 addresses, each held as its 32-bit value in
/// network order (`192.0.2.1` is `0xC000_0201`).
#[derive(Clone, Copy, Debug, PartialEq, Eq, Hash, Structural)]
pub struct Ipv4StatsKey {
    pub source: u32,
    pub dest: u32,
}

/// An ordered pair of IPv6 addresses, each held as its 128-bit value in
/// network order.
#[derive(Clone, Copy, Debug, PartialEq, Eq, Hash, Structural)]
pub struct Ipv6StatsKey {
    pub source: u128,
    pub dest: u128,
}

/// The two address families a key can belong to.
#[derive(Clone, Copy, Debug, PartialEq, Eq, Hash, Structural)]
pub enum AddressPair {
    V4(Ipv4StatsKey),
    V6(Ipv6StatsKey),
}

/// The key of the aggregation table: source and destination of one family,
/// in that order.
#[derive(Clone, Copy, Debug, PartialEq, Eq, Hash, Structural)]
pub struct StatsKey(pub AddressPair);

/// The running totals kept for one key.
#[derive(Clone, Copy, Debug, PartialEq, Eq, Structural)]
pub struct StatsValue {
    pub total_length: u128,
    pub total_count: u128,
}

impl StatsValue {
    /// The totals of a pair that has not been observed yet.
    pub fn new() -> (v: Self)
        ensures
            v.total_length == 0,
            v.total_count == 0,
    {
        StatsValue { total_length: 0, total_count: 0 }
    }
}

/// The totals after one more observation of `length` bytes.
pub open spec fn bumped(value: StatsValue, length: u128) -> StatsValue {
    StatsValue {
        total_length: (value.total_length + length) as u128,
        total_count: (value.total_count + 1) as u128,
    }
}

/// The totals of `key` in `table`; zero for a key that is not there.
pub open spec fn totals(table: Map<StatsKey, StatsValue>, key: StatsKey) -> StatsValue {
    if table.contains_key(key) {
        table[key]
    } else {
        StatsValue { total_length: 0, total_count: 0 }
    }
}

/// The table after one observation of `key` with `length` bytes: the record
/// of `key` is found or created, its count grows by one and its length by
/// `length`; no other record changes.
pub open spec fn record(table: Map<StatsKey, StatsValue>, key: StatsKey, length: u128) -> Map<
    StatsKey,
    StatsValue,
> {
    table.insert(key, bumped(totals(table, key), length))
}

/// No key occurs twice in `entries`.
pub open spec fn keys_distinct(entries: Seq<(StatsKey, StatsValue)>) -> bool {
    forall|i: int, j: int| 0 <= i < j < entries.len() ==> entries[i].0 != entries[j].0
}

/// `key` occurs in `entries`.
pub open spec fn has_key(entries: Seq<(StatsKey, StatsValue)>, key: StatsKey) -> bool {
    exists|i: int| 0 <= i < entries.len() && entries[i].0 == key
}

/// An index at which `key` occurs in `entries`, where there is one.
pub open spec fn index_of(entries: Seq<(StatsKey, StatsValue)>, key: StatsKey) -> int {
    choose|i: int| 0 <= i < entries.len() && entries[i].0 == key
}

/// The table that a list of entries denotes. Where a key occurs twice, the
/// later entry counts.
pub open spec fn table_of(entries: Seq<(StatsKey, StatsValue)>) -> Map<StatsKey, StatsValue>
    decreases entries.len(),
{
    if entries.len() == 0 {
        Map::empty()
    } else {
        table_of(entries.drop_last()).insert(entries.last().0, entries.last().1)
    }
}

/// `entries` with the record of `key` set to `value`: in place where the key
/// is there already, at the end where it is new.
pub open spec fn stored(entries: Seq<(StatsKey, StatsValue)>, key: StatsKey, value: StatsValue) -> Seq<
    (StatsKey, StatsValue),
> {
    if has_key(entries, key) {
        entries.update(index_of(entries, key), (key, value))
    } else {
        entries.push((key, value))
    }
}

/// `entries` after one observation of `key` with `length` bytes.
pub open spec fn recorded(entries: Seq<(StatsKey, StatsValue)>, key: StatsKey, length: u128) -> Seq<
    (StatsKey, StatsValue),
> {
    stored(entries, key, bumped(totals(table_of(entries), key), length))
}

/// The keys of the table are those of the list.
pub proof fn lemma_table_keys(entries: Seq<(StatsKey, StatsValue)>, key: StatsKey)
    ensures
        table_of(entries).contains_key(key) <==> has_key(entries, key),
    decreases entries.len(),
{
    if entries.len() > 0 {
        let front = entries.drop_last();
        lemma_table_keys(front, key);
        if has_key(entries, key) && index_of(entries, key) < front.len() {
            assert(front[index_of(entries, key)].0 == key);
        }
    }
}

/// A list without repeated keys has none without its last entry either.
pub(crate) proof fn lemma_front_distinct(entries: Seq<(StatsKey, StatsValue)>)
    requires
        keys_distinct(entries),
        entries.len() > 0,
    ensures
        keys_distinct(entries.drop_last()),
{
}

/// In a list without repeated keys, the table gives each key the value that
/// stands beside it.
pub proof fn lemma_table_value(entries: Seq<(StatsKey, StatsValue)>, i: int)
    requires
        keys_distinct(entries),
        0 <= i < entries.len(),
    ensures
        table_of(entries).contains_key(entries[i].0),
        table_of(entries)[entries[i].0] == entries[i].1,
    decreases entries.len(),
{
    if i < entries.len() - 1 {
        lemma_front_distinct(entries);
        lemma_table_value(entries.drop_last(), i);
    }
}

/// Storing a value in the list stores it in the table, and keeps the keys
/// distinct.
pub proof fn lemma_stored(entries: Seq<(StatsKey, StatsValue)>, key: StatsKey, value: StatsValue)
    requires
        keys_distinct(entries),
    ensures
        keys_distinct(stored(entries, key, value)),
        table_of(stored(entries, key, value)) == table_of(entries).insert(key, value),
    decreases entries.len(),
{
    let after = stored(entries, key, value);
    if has_key(entries, key) {
        let i = index_of(entries, key);
        let front = entries.drop_last();
        let last = entries.last();
        lemma_front_distinct(entries);
        if i == entries.len() - 1 {
            assert(after.drop_last() == front);
            assert(table_of(front).insert(key, last.1).insert(key, value) == table_of(
                front,
            ).insert(key, value));
        } else {
            assert(front[i].0 == key);
            assert(index_of(front, key) == i);
            lemma_stored(front, key, value);
            assert(after.drop_last() == stored(front, key, value));
            assert(last.0 != key);
            assert(table_of(front).insert(key, value).insert(last.0, last.1) == table_of(
                front,
            ).insert(last.0, last.1).insert(key, value));
        }
    } else {
        assert(after.drop_last() == entries);
    }
}

/// The aggregation table: one record per address pair.
///
/// The table keeps its records in the order in which their pairs were first
/// seen; [`Stats::entries`] is that list and the view is the mapping it
/// denotes.
#[derive(Debug)]
pub struct Stats {
    entries: Vec<(StatsKey, StatsValue)>,
}

impl View for Stats {
    type V = Map<StatsKey, StatsValue>;

    open spec fn view(&self) -> Map<StatsKey, StatsValue> {
        table_of(self.entries())
    }
}

impl Stats {
    #[verifier::type_invariant]
    spec fn well_formed(self) -> bool {
        keys_distinct(self.entries@)
    }

    /// The records, in the order in which their keys were first seen.
    pub closed spec fn entries(&self) -> Seq<(StatsKey, StatsValue)> {
        self.entries@
    }

    /// One more observation of `key` with `length` bytes overflows neither
    /// total.
    pub open spec fn has_room(&self, key: StatsKey, length: u128) -> bool {
        &&& totals(self@, key).total_count + 1 <= u128::MAX
        &&& totals(self@, key).total_length + length <= u128::MAX
    }

    /// The empty table.
    pub fn new() -> (db: Self)
        ensures
            db.entries() == Seq::<(StatsKey, StatsValue)>::empty(),
            db@ == Map::<StatsKey, StatsValue>::empty(),
    {
        Stats { entries: Vec::new() }
    }

    /// The number of address pairs in the table. No pair has two records.
    pub fn len(&self) -> (n: usize)
        ensures
            n == self.entries().len(),
            keys_distinct(self.entries()),
    {
        proof {
            use_type_invariant(self);
        }
        self.entries.len()
    }

    /// Where `key` stands in the list of records.
    fn find(&self, key: &StatsKey) -> (r: Option<usize>)
        ensures
            keys_distinct(self.entries()),
            r is Some <==> has_key(self.entries(), *key),
            r matches Some(i) ==> i == index_of(self.entries(), *key) && i < self.entries().len()
                && self.entries()[i as int].0 == *key,
    {
        proof {
            use_type_invariant(self);
        }
        let mut i: usize = 0;
        while i < self.entries.len()
            invariant
                i <= self.entries@.len(),
                keys_distinct(self.entries@),
                forall|j: int| 0 <= j < i ==> self.entries@[j].0 != *key,
            decreases self.entries@.len() - i,
        {
            if self.entries[i].0 == *key {
                return Some(i);
            }
            i += 1;
        }
        None
    }

    /// The totals recorded for `key`, if the pair has been observed.
    pub fn get(&self, key: &StatsKey) -> (r: Option<StatsValue>)
        ensures
            r == if self@.contains_key(*key) {
                Some(self@[*key])
            } else {
                None
            },
    {
        proof {
            lemma_table_keys(self.entries(), *key);
        }
        match self.find(key) {
            Some(i) => {
                proof {
                    lemma_table_value(self.entries(), i as int);
                }
                Some(self.entries[i].1)
            },
            None => None,
        }
    }

    /// Whether one more observation of `key` with `length` bytes fits.
    pub fn can_record(&self, key: &StatsKey, length: u128) -> (b: bool)
        ensures
            b == self.has_room(*key, length),
    {
        match self.get(key) {
            Some(v) => v.total_count < u128::MAX && v.total_length <= u128::MAX - length,
            None => true,
        }
    }

    /// The record at place `index` of the list of records, if there are that
    /// many.
    pub fn entry(&self, index: usize) -> (r: Option<(StatsKey, StatsValue)>)
        ensures
            r == if index < self.entries().len() {
                Some(self.entries()[index as int])
            } else {
                None
            },
    {
        if index < self.entries.len() {
            Some(self.entries[index])
        } else {
            None
        }
    }

    /// Sets the record of `key` to `value`: in place where the key has a
    /// record, as a new last record where it has none.
    pub(crate) fn insert(&mut self, key: StatsKey, value: StatsValue)
        ensures
            final(self).entries() == stored(old(self).entries(), key, value),
            final(self)@ == old(self)@.insert(key, value),
    {
        let found = self.find(&key);
        self.put(found, key, value);
    }

    /// Sets the record of `key` to `value`, `found` being where the key
    /// stands.
    fn put(&mut self, found: Option<usize>, key: StatsKey, value: StatsValue)
        requires
            found is Some <==> has_key(old(self).entries(), key),
            found matches Some(i) ==> {
                &&& i == index_of(old(self).entries(), key)
                &&& i < old(self).entries().len()
            },
        ensures
            final(self).entries() == stored(old(self).entries(), key, value),
            final(self)@ == old(self)@.insert(key, value),
    {
        proof {
            use_type_invariant(&*self);
            lemma_stored(self.entries(), key, value);
        }
        let mut taken = Stats { entries: Vec::new() };
        core::mem::swap(self, &mut taken);
        let Stats { entries } = taken;
        let mut entries = entries;
        match found {
            Some(i) => {
                entries.set(i, (key, value));
            },
            None => {
                entries.push((key, value));
            },
        }
        *self = Stats { entries };
    }

    /// A copy of the whole table as it stands.
    pub fn snapshot(&self) -> (copy: Self)
        ensures
            copy.entries() == self.entries(),
            copy@ == self@,
    {
        proof {
            use_type_invariant(self);
        }
        let mut entries: Vec<(StatsKey, StatsValue)> = Vec::new();
        let mut i: usize = 0;
        while i < self.entries.len()
            invariant
                i <= self.entries@.len(),
                entries@ == self.entries@.take(i as int),
            decreases self.entries@.len() - i,
        {
            entries.push(self.entries[i]);
            i += 1;
        }
        assert(entries@ == self.entries@);
        Stats { entries }
    }
}

impl Stats {
    /// Whether every record of this table stands in `other` with the same
    /// totals.
    fn within(&self, other: &Stats) -> (b: bool)
        ensures
            b == forall|k: StatsKey| #[trigger]
                self@.contains_key(k) ==> other@.contains_key(k) && other@[k] == self@[k],
    {
        proof {
            use_type_invariant(self);
        }
        let mut i: usize = 0;
        while i < self.entries.len()
            invariant
                i <= self.entries@.len(),
                keys_distinct(self.entries@),
                self.entries() == self.entries@,
                forall|j: int|
                    0 <= j < i ==> other@.contains_key(#[trigger] self.entries@[j].0)
                        && other@[self.entries@[j].0] == self.entries@[j].1,
            decreases self.entries@.len() - i,
        {
            let (key, value) = self.entries[i];
            proof {
                lemma_table_value(self.entries@, i as int);
                assert(self@.contains_key(key) && self@[key] == value);
            }
            match other.get(&key) {
                Some(found) => {
                    if found != value {
                        return false;
                    }
                },
                None => {
                    return false;
                },
            }
            i += 1;
        }
        proof {
            assert forall|k: StatsKey| #[trigger] self@.contains_key(k) implies other@.contains_key(
                k,
            ) && other@[k] == self@[k] by {
                lemma_table_keys(self.entries@, k);
                let j = index_of(self.entries@, k);
                lemma_table_value(self.entries@, j);
            }
        }
        true
    }
}

impl PartialEq for Stats {
    /// Two tables are equal where they hold the same pairs with the same
    /// totals, in whatever order.
    fn eq(&self, other: &Stats) -> (b: bool) {
        let b = self.within(other) && other.within(self);
        proof {
            if b {
                assert(self@ =~= other@);
            }
        }
        b
    }
}

impl vstd::std_specs::cmp::PartialEqSpecImpl for Stats {
    open spec fn obeys_eq_spec() -> bool {
        true
    }

    open spec fn eq_spec(&self, other: &Stats) -> bool {
        self@ == other@
    }
}

/// Records one observation: finds or creates the record of the pair, then
/// adds one to its count and the declared length to its length. Both totals
/// change in this one step; no other record changes, and no total of the
/// table ever shrinks.
pub fn update_db(db: &mut Stats, stats: (StatsKey, u128))
    requires
        old(db).has_room(stats.0, stats.1),
    ensures
        final(db)@ == record(old(db)@, stats.0, stats.1),
        final(db).entries() == recorded(old(db).entries(), stats.0, stats.1),
        forall|k: StatsKey| #[trigger]
            old(db)@.contains_key(k) ==> {
                &&& final(db)@.contains_key(k)
                &&& old(db)@[k].total_count <= final(db)@[k].total_count
                &&& old(db)@[k].total_length <= final(db)@[k].total_length
            },
{
    let found = db.find(&stats.0);
    let before = match found {
        Some(i) => db.entries[i].1,
        None => StatsValue::new(),
    };
    proof {
        lemma_table_keys(db.entries(), stats.0);
        if let Some(i) = found {
            lemma_table_value(db.entries(), i as int);
        }
    }
    let after = StatsValue {
        total_length: before.total_length + stats.1,
        total_count: before.total_count + 1,
    };
    db.put(found, stats.0, after);
}

} // verus!
