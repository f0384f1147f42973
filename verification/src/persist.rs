//! Loading the table at startup and handing it out for storage after an
//! update. Reading and writing the storage location is the caller's part.

use vstd::prelude::*;
use crate::data::{Stats, StatsKey, StatsValue};
use crate::document::{document_of, document_view, parse_document, Entry};
use crate::key::KeyError;

verus! {

/// What the caller found at the storage location.
#[derive(Debug)]
pub enum StorageRead {
    /// A document.
    Document(Vec<Entry>),
    /// Contents that are no document.
    Malformed,
    /// Nothing: the location does not exist.
    Missing,
    /// No answer: reading failed for another reason.
    Unreadable,
}

/// How the process starts.
pub struct Startup {
    /// The table to start with.
    pub table: Stats,
    /// Whether an empty document is to be created at the storage location
    /// before capture begins.
    pub create_document: bool,
}

/// Why the process does not start.
#[derive(Clone, Copy, Debug, PartialEq, Eq, Structural)]
pub enum StartupError {
    /// The storage location holds no document.
    Malformed,
    /// The stored document holds a key that cannot be read.
    Key(KeyError),
    /// The storage location could not be read.
    Unreadable,
}

/// The table to start with. `storage` is `None` where no storage location is
/// configured, else what was found there.
///
/// Without a location, and with a location at which nothing exists yet, the
/// table starts empty; in the second case an empty document is to be
/// created. A document gives the table it denotes. Anything else is fatal.
pub fn read_db(storage: Option<StorageRead>) -> (r: Result<Startup, StartupError>)
    ensures
        match storage {
            None => r matches Ok(start) && start.table.entries() == Seq::<
                (StatsKey, StatsValue),
            >::empty() && !start.create_document,
            Some(StorageRead::Missing) => r matches Ok(start) && start.table.entries() == Seq::<
                (StatsKey, StatsValue),
            >::empty() && start.create_document,
            Some(StorageRead::Malformed) => r matches Err(e) && e == StartupError::Malformed,
            Some(StorageRead::Unreadable) => r matches Err(e) && e == StartupError::Unreadable,
            Some(StorageRead::Document(doc)) => match parse_document(document_view(doc@)) {
                Ok(entries) => r matches Ok(start) && start.table.entries() == entries
                    && !start.create_document,
                Err(reason) => r matches Err(e) && e == StartupError::Key(reason),
            },
        },
{
    match storage {
        None => Ok(Startup { table: Stats::new(), create_document: false }),
        Some(StorageRead::Missing) => Ok(Startup { table: Stats::new(), create_document: true }),
        Some(StorageRead::Malformed) => Err(StartupError::Malformed),
        Some(StorageRead::Unreadable) => Err(StartupError::Unreadable),
        Some(StorageRead::Document(doc)) => match Stats::deserialize(&doc) {
            Ok(table) => Ok(Startup { table, create_document: false }),
            Err(reason) => Err(StartupError::Key(reason)),
        },
    }
}

/// The document to write after an update: the whole table, where a storage
/// location is configured; nothing where none is.
pub fn save_db(configured: bool, in_memory: &Stats) -> (r: Option<Vec<Entry>>)
    ensures
        match r {
            Some(doc) => configured && document_view(doc@) == document_of(in_memory.entries()),
            None => !configured,
        },
{
    if configured {
        Some(in_memory.serialize())
    } else {
        None
    }
}

} // verus!
