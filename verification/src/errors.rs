//! Error taxonomy of the stream-writer registry.

use vstd::prelude::*;

verus! {

/// Error returned by registry operations.
///
/// - `Writer`: the columnar encoder rejected a batch, because the batch's
///   schema does not match the schema the writer was established with.
/// - `Io`: directory creation, file open, a write, or a footer write
///   failed at the OS level; carries the raw OS error code.  Returned by
///   the registry's failure entry points when the I/O shell reports that a
///   staged-file action could not be performed.
/// - `RwPoisoned`: the table's structural guard is unusable because a prior
///   holder failed while holding it.
/// - `MutexPoisoned`: one (stream, schema) slot's guard is unusable; other
///   slots remain unaffected.
#[derive(Debug, Clone, Copy, PartialEq, Eq, Structural)]
pub enum StreamWriterError {
    Writer { expected_schema: u64, found_schema: u64 },
    Io { os_code: i32 },
    RwPoisoned,
    MutexPoisoned,
}

impl StreamWriterError {
    /// True exactly when the error reports a poisoned guard (structural or
    /// per-slot), the two kinds a caller can recover from by retrying against
    /// other streams.
    pub fn is_poison(&self) -> (r: bool)
        ensures
            r == (*self is RwPoisoned || *self is MutexPoisoned),
    {
        match self {
            StreamWriterError::RwPoisoned => true,
            StreamWriterError::MutexPoisoned => true,
            _ => false,
        }
    }
}

} // verus!
