//! An embedded, single-node, typed key-value store built on the
//! log-structured merge-tree pattern.
//!
//! Mutations are appended to a write-ahead log and buffered in an ordered
//! in-memory table; the buffer is flushed as an immutable sorted-string
//! table once it grows past a threshold; point reads consult the buffer
//! and then the table stack newest-first; space is reclaimed by merging
//! tables. The store works on in-memory images of its on-disk files
//! (log, table storage and index files, manifest); a host program is
//! responsible for mirroring those images to durable storage.

pub mod compaction;
pub mod config;
pub mod engine;
pub mod keys;
pub mod manifest;
pub mod memtable;
pub mod numbers;
pub mod record;
pub mod serialization;
pub mod sstable;
