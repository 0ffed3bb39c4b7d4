//! A persistent, crash-safe key-value store with a Bitcask-style
//! log-structured layout.
//!
//! The engine keeps an append-only log split across generation files, an
//! in-memory key directory pointing each live key at its most recent `Put`
//! record, and a compactor that reclaims space from sealed generations.
//! All state-changing operations report the file operations they imply, so
//! that a caller owning the real directory can mirror them to disk.

use vstd::prelude::*;

pub mod command;
pub mod endian;
pub mod engines;
pub mod keydir;
pub mod laws;
pub mod model;
pub mod record;
pub mod store;
pub mod wire;

pub use command::Command;
pub use engines::sled::Sled;
pub use engines::KvsEngine;
pub use keydir::{KeyDir, LogPos};
pub use record::LogRecord;
pub use store::{FileOp, GenFile, KvStore, COMPACTION_THRESHOLD, MAX_FILE_SIZE};
pub use wire::{Request, Response};

verus! {

/// Errors surfaced by the store and its codecs.
#[derive(Debug, Clone, PartialEq, Eq)]
pub enum KvsError {
    /// `remove` was called for a key that has no mapping.
    KeyNotFound,
    /// A record failed to decode: unknown tag, truncated tail on a sealed
    /// generation, or invalid lengths.
    Codec,
    /// The store directory is malformed, e.g. two files claim one generation.
    Config,
    /// The encoded record would not fit into one generation file.
    ValueTooLarge,
    /// An error surfaced from the filesystem or an embedded engine.
    Io(String),
    /// An error string surfaced from the remote end of the wire protocol.
    Server(String),
}

} // verus!
