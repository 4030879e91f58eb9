use vstd::prelude::*;

verus! {

/// Failures an engine can report.
#[derive(Debug, Clone, PartialEq, Eq)]
pub enum OrbyError {
    /// The store would not fit in the memory that may be used.
    InsufficientMemory { requested_mb: u64, available_mb: u64 },
    /// A row length or a lane index does not match the configured lane count.
    LaneCountMismatch { pool_name: String, expected: usize, found: usize },
    /// A vault on disk disagrees with the configuration, or its header is missing or invalid.
    ConfigMismatch { name: String, reason: String },
    /// A runtime invariant does not hold.
    InconsistentState { name: String, message: String },
    /// A storage operation failed.
    StorageError { name: String, message: String },
    /// Bad magic number or truncated record.
    InvalidFormat(String),
    /// A lane batch larger than the capacity.
    StorageFull { pool_name: String, capacity: usize },
    /// An error reported by the operating system.
    IoError(String),
    /// Anything else.
    Custom(String),
}

} // verus!
