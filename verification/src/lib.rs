//! Persistent storage core of a distributed key-value store.
//!
//! Two engines share primitive utilities: an LSM-tree sorted-string-table
//! (SSTable) read/write path with block-wise reads and bidirectional
//! iterators, and a multi-group raft log store built on an append-only
//! write-ahead log with an in-memory index.

pub mod bytes_util;
pub mod block;
pub mod bloom;
pub mod concat_iterator;
pub mod config;
pub mod error;
pub mod iterator;
pub mod keys;
pub mod kv_map;
pub mod memtable;
pub mod object_store;
pub mod raft_entry;
pub mod raft_log;
pub mod raft_mem;
pub mod raft_store;
pub mod sstable;
pub mod sstable_iterator;
pub mod sstable_store;
pub mod utils;
