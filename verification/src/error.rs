//! Error kinds surfaced by the write-ahead log core.

use vstd::prelude::*;

verus! {

/// Errors reported by the log, the shared coordinator and the registry.
#[derive(Clone, Copy, Debug, PartialEq, Eq, Structural)]
pub enum WalError {
    /// The snapshot taken by `begin_read` went stale before `upgrade`
    /// claimed the writer lock; the caller must restart the transaction.
    BusySnapshot,
    /// A writer found that it no longer holds the writer lock.
    LockStolen,
    /// A write was attempted on a sealed segment.
    ReadOnly,
    /// A header, frame or index did not decode consistently.
    Corruption,
    /// An operation on the underlying storage failed.
    Io,
}

impl WalError {
    /// A short description, usable by callers that render errors.
    pub fn describe(&self) -> (r: &'static str)
        ensures
            r@.len() > 0,
    {
        let s = match self {
            WalError::BusySnapshot => "snapshot is stale, restart the transaction",
            WalError::LockStolen => "writer lock was lost",
            WalError::ReadOnly => "segment is sealed",
            WalError::Corruption => "segment data is corrupted",
            WalError::Io => "storage operation failed",
        };
        proof {
            reveal_strlit("snapshot is stale, restart the transaction");
            reveal_strlit("writer lock was lost");
            reveal_strlit("segment is sealed");
            reveal_strlit("segment data is corrupted");
            reveal_strlit("storage operation failed");
        }
        s
    }
}

} // verus!
