//! A personal file-synchronization library: a three-way reconciliation
//! engine between a local sync directory, a local sync journal, and a
//! remote content-addressed file server, together with the streaming
//! upload/download protocol the two sides speak.

use vstd::prelude::*;

pub mod auth;
pub mod config;
pub mod engine;
pub mod format;
pub mod hashing;
pub mod journal;
pub mod localdir;
pub mod paths;
pub mod reconcile;
pub mod remote;
pub mod server;
pub mod table;

verus! {

/// The error taxonomy observed at the reconciler boundary.
#[derive(Clone, Copy, Debug, PartialEq, Eq, Structural)]
pub enum SyncError {
    /// Missing or expired credential.
    Unauthenticated,
    /// Reserved file name, non-absolute path, or a malformed upload stream.
    InvalidArgument,
    /// The server cannot find the user the call speaks for.
    PreconditionFailed,
    /// The upload would push the user over the storage quota.
    ResourceExhausted,
    /// The uploaded bytes exceeded the announced size mid-stream.
    Aborted,
    /// Announced hash or size disagreed with the received bytes at commit.
    DataLoss,
    /// No record with the given key.
    NotFound,
    /// A local disk failure.
    IoError,
    /// A downloaded file failed its post-download hash check.
    IntegrityError,
}

} // verus!
