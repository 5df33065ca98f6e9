//! `cask` is the verified core of a key-value store backed by a log-structured hash table.
//!
//! Keys are indexed in memory and values live in an append-only log made of segments. This
//! crate holds the record codec, the index with its per-segment statistics, the append writer
//! with its rotation rule, recovery, and the compaction rules. It performs no input or output
//! itself: every operation takes the bytes it needs and returns the bytes to be written.

pub mod accounting;
pub mod bytes;
pub mod cask;
pub mod compaction;
pub mod data;
pub mod errors;
pub mod file;
pub mod file_pool;
pub mod index;
pub mod laws;
pub mod log;
pub mod stats;
pub mod util;

pub use crate::cask::{CaskInner, CaskOptions, Recovery, SyncStrategy};
