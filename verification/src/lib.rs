//! Activity ledger: per-group message counts with ranked percentage statistics.
//!
//! Two interchangeable storage strategies back the same contract: the
//! in-memory counting table [`ledger::Ledger`] and the durable, SQLite-backed
//! event log [`chat_server::ChatServer`].

use vstd::prelude::*;

pub mod model;
pub mod counts;
pub mod format;
pub mod ledger;
pub mod chat_server;

verus! {

/// Errors surfaced by the ledger operations.
///
/// `NotFound` means the queried group (or participant within it) has no
/// recorded data; `StorageFailure` means the underlying store could not
/// complete a read or write; `InvalidInput` means an empty participant
/// identity was passed to a recording operation.
#[derive(Debug, Clone, Copy, PartialEq, Eq, Structural)]
pub enum LedgerError {
    NotFound,
    StorageFailure,
    InvalidInput,
}

} // verus!
