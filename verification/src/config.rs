//! Configuration for the storage node.
//!
//! Sizes arrive as strings from the configuration file and are parsed by
//! the embedding layer.

use vstd::prelude::*;

verus! {

/// Write buffer sizing.
#[derive(Clone, Debug)]
pub struct BufferConfig {
    pub write_buffer_capacity: String,
}

/// Raft log store sizing and placement.
#[derive(Clone, Debug)]
pub struct RaftLogStoreConfig {
    pub log_dir_path: String,
    pub log_file_capacity: String,
    pub block_cache_capacity: String,
}

} // verus!
