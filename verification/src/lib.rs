//! A small persistent key-value store built on a log-structured merge tree.
//!
//! The library holds the store's logic: the in-memory table, the byte
//! formats of the write-ahead log and of the sorted table files, the
//! lookup, listing and compaction rules of the engine.
pub mod codec;
pub mod engine;
pub mod entries;
pub mod error;
pub mod frame;
pub mod keys;
pub mod memtable;
pub mod names;
pub mod properties;
pub mod sstable;
pub mod wal;
