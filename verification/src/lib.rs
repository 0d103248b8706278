//! A segment-based write-ahead log for an embedded relational database.
//!
//! The log replaces the database's built-in WAL with an append-only sequence
//! of segment files.  Each segment holds a fixed header, a run of frames
//! (one page image each) and, once sealed, an immutable index blob.  A
//! per-namespace coordinator hands out read snapshots, arbitrates a single
//! writer through a fair lock queue, rotates segments, and checkpoints
//! sealed segments into the base database file.
//!
//! Segment files and the base database file are handled here as byte
//! images; reading and writing them to durable storage is the caller's
//! concern.

pub mod codec;
pub mod error;
pub mod frame;
pub mod header;
pub mod index;
pub mod log;
pub mod registry;
pub mod sealed_index;
pub mod sealed_log;
pub mod shared_wal;
pub mod stats;
pub mod transaction;
