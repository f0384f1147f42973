//! The persisted document: the table as a list of entries, each the text of
//! a key beside its totals.

use vstd::prelude::*;
use crate::data::{keys_distinct, lemma_front_distinct, stored, Stats, StatsKey, StatsValue};
use crate::key::{key_text, lemma_key_round_trip, parse_key, KeyError};

verus! {

/// One entry of the document.
#[derive(Debug, PartialEq, Eq)]
pub struct Entry {
    /// The text of the key: `<source> -> <destination>`.
    pub key: String,
    /// The totals of the key.
    pub value: StatsValue,
}

/// What a document says: the key texts and totals of its entries, in their
/// order.
pub open spec fn document_view(doc: Seq<Entry>) -> Seq<(Seq<char>, StatsValue)> {
    Seq::new(doc.len(), |i: int| (doc[i].key@, doc[i].value))
}

/// The document of a list of records: each key as its text, beside its
/// totals, in the order of the list.
pub open spec fn document_of(entries: Seq<(StatsKey, StatsValue)>) -> Seq<(Seq<char>, StatsValue)> {
    Seq::new(entries.len(), |i: int| (key_text(entries[i].0), entries[i].1))
}

/// The records that a document denotes, or why its first unreadable key is
/// unreadable. Where two entries have the same key, the later one gives the
/// totals, at the place of the earlier one.
pub open spec fn parse_document(doc: Seq<(Seq<char>, StatsValue)>) -> Result<
    Seq<(StatsKey, StatsValue)>,
    KeyError,
>
    decreases doc.len(),
{
    if doc.len() == 0 {
        Ok(Seq::empty())
    } else {
        match parse_document(doc.drop_last()) {
            Err(e) => Err(e),
            Ok(entries) => match parse_key(doc.last().0) {
                Err(e) => Err(e),
                Ok(key) => Ok(stored(entries, key, doc.last().1)),
            },
        }
    }
}

impl Stats {
    /// The document of the table: one entry per record, in the order of the
    /// records.
    pub fn serialize(&self) -> (doc: Vec<Entry>)
        ensures
            document_view(doc@) == document_of(self.entries()),
    {
        let mut doc: Vec<Entry> = Vec::new();
        let n = self.len();
        let mut i: usize = 0;
        while i < n
            invariant
                n == self.entries().len(),
                i <= n,
                doc@.len() == i,
                forall|j: int|
                    0 <= j < i ==> (#[trigger] doc@[j]).key@ == key_text(self.entries()[j].0)
                        && doc@[j].value == self.entries()[j].1,
            decreases n - i,
        {
            match self.entry(i) {
                Some((key, value)) => {
                    doc.push(Entry { key: key.serialize(), value });
                },
                None => {},
            }
            i += 1;
        }
        doc
    }

    /// The table that a document denotes. A document with a key that cannot
    /// be read denotes none.
    pub fn deserialize(doc: &Vec<Entry>) -> (r: Result<Stats, KeyError>)
        ensures
            match parse_document(document_view(doc@)) {
                Ok(entries) => r matches Ok(db) && db.entries() == entries,
                Err(e) => r matches Err(f) && f == e,
            },
    {
        let ghost said = document_view(doc@);
        let mut db = Stats::new();
        let mut i: usize = 0;
        while i < doc.len()
            invariant
                i <= doc@.len(),
                said == document_view(doc@),
                parse_document(said.take(i as int)) == Ok::<Seq<(StatsKey, StatsValue)>, KeyError>(
                    db.entries(),
                ),
            decreases doc@.len() - i,
        {
            proof {
                lemma_parse_step(said, i as int);
            }
            match StatsKey::deserialize(doc[i].key.as_str()) {
                Ok(key) => {
                    db.insert(key, doc[i].value);
                },
                Err(e) => {
                    proof {
                        lemma_parse_stops(said, i + 1);
                    }
                    return Err(e);
                },
            }
            i += 1;
        }
        assert(said.take(doc@.len() as int) == said);
        Ok(db)
    }
}

/// Reading one entry more: the entries before it must be readable, then its
/// key; its totals are stored under that key.
proof fn lemma_parse_step(doc: Seq<(Seq<char>, StatsValue)>, n: int)
    requires
        0 <= n < doc.len(),
    ensures
        parse_document(doc.take(n + 1)) == match parse_document(doc.take(n)) {
            Err(e) => Err(e),
            Ok(entries) => match parse_key(doc[n].0) {
                Err(e) => Err(e),
                Ok(key) => Ok(stored(entries, key, doc[n].1)),
            },
        },
{
    assert(doc.take(n + 1).drop_last() == doc.take(n));
}

/// Where the first `n` entries cannot be read, the document cannot be read,
/// for the same reason.
proof fn lemma_parse_stops(doc: Seq<(Seq<char>, StatsValue)>, n: int)
    requires
        0 <= n <= doc.len(),
        parse_document(doc.take(n)) is Err,
    ensures
        parse_document(doc) == parse_document(doc.take(n)),
    decreases doc.len(),
{
    if n < doc.len() {
        assert(doc.drop_last().take(n) == doc.take(n));
        lemma_parse_stops(doc.drop_last(), n);
    } else {
        assert(doc.take(n) == doc);
    }
}

/// A record whose key is not in the list is stored at its end.
proof fn lemma_stored_new(front: Seq<(StatsKey, StatsValue)>, key: StatsKey, value: StatsValue)
    requires
        forall|i: int| 0 <= i < front.len() ==> front[i].0 != key,
    ensures
        stored(front, key, value) == front.push((key, value)),
{
}

/// The document of a list of records without repeated keys is read back as
/// that list.
pub proof fn lemma_document_round_trip(entries: Seq<(StatsKey, StatsValue)>)
    requires
        keys_distinct(entries),
    ensures
        parse_document(document_of(entries)) == Ok::<Seq<(StatsKey, StatsValue)>, KeyError>(
            entries,
        ),
    decreases entries.len(),
{
    if entries.len() > 0 {
        let front = entries.drop_last();
        let last = entries.last();
        assert(document_of(entries).drop_last() == document_of(front));
        lemma_front_distinct(entries);
        lemma_document_round_trip(front);
        lemma_key_round_trip(last.0);
        lemma_stored_new(front, last.0, last.1);
        assert(front.push(last) == entries);
    } else {
        assert(entries =~= Seq::empty());
    }
}

} // verus!
