//! Error kinds shared by the storage engines.

use vstd::prelude::*;

verus! {

/// Tagged error sum for all storage operations.
///
/// All I/O and decode errors bubble to the caller of the public entrypoint.
#[derive(Clone, Debug, PartialEq, Eq)]
pub enum Error {
    /// The object store holds no object under the given path.
    ObjectNotFound(Vec<u8>),
    /// A range read fell outside the stored object.
    ObjectRange,
    /// A stored checksum does not match the bytes it covers.
    Checksum,
    /// Malformed block, meta or log entry bytes.
    Decode,
    /// A raft log append or read would leave or cross a hole in the log.
    RaftLogGap { start: u64, end: u64 },
    /// The raft group is already registered.
    GroupAlreadyExists(u64),
    /// The raft group is not registered.
    GroupNotExists(u64),
}

pub type Result<T> = core::result::Result<T, Error>;

} // verus!
