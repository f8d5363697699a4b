//! A minimal embedded log-structured merge key-value engine, verified.
//!
//! Writes go to a write-ahead log first, and only after that into a
//! bounded, sorted in-memory buffer. When the buffer reaches its capacity
//! it is drained into an immutable sorted table, the catalog of tables is
//! rewritten, and the log is emptied. Lookups read the buffer first, and
//! the tables from newest to oldest after it. The durable state is
//! modelled as plain byte buffers, so the engine's behaviour -- what a
//! lookup returns, what a crash can lose, what a damaged log tail costs --
//! is stated and proved over the bytes themselves; moving the buffers to
//! and from disk is left to the code around the library.

use vstd::prelude::*;

pub mod bytes;
pub mod checksum;
pub mod engine;
pub mod entries;
pub mod keys;
pub mod laws;
pub mod manifest;
pub mod memtable;
pub mod sstable;
pub mod wal;

verus! {

/// The ways an operation of this crate can fail.
#[derive(Clone, Copy, Debug, PartialEq, Eq, Structural)]
pub enum LsmError {
    /// The catalog file exists but does not decode.
    ManifestCorrupt,
    /// The catalog names a table for which no file is present.
    TableMissing,
    /// A table file is present but does not decode to a sorted entry list.
    TableCorrupt,
    /// No fresh table identifier is available for a flush.
    CatalogFull,
}

} // verus!
