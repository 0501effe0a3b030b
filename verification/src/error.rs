//! The errors that the store reports.

use vstd::prelude::*;

verus! {

/// Why an operation of the store was refused.
#[derive(Clone, Copy, Debug, PartialEq, Eq, Structural)]
pub enum StoreError {
    /// The manager has not been initialized.
    NotInitialized,
    /// No entry with the index that was asked for.
    IndexOutOfRange,
    /// The index lies outside the segment that was asked to truncate.
    IndexOutOfSegment,
    /// The entry does not follow the last entry of the segment.
    IndexGap,
    /// The new state would break an invariant of the store; nothing changed.
    InvariantViolation,
    /// What was read from a file is not what the store writes.
    Corrupt,
    /// A file operation failed; the manager has stopped.
    Io,
}

impl StoreError {
    /// A short name of the error, for messages.
    pub fn name(&self) -> (s: &'static str)
        ensures
            s@ == match *self {
                StoreError::NotInitialized => "not initialized"@,
                StoreError::IndexOutOfRange => "index out of range"@,
                StoreError::IndexOutOfSegment => "index out of segment"@,
                StoreError::IndexGap => "index gap"@,
                StoreError::InvariantViolation => "invariant violation"@,
                StoreError::Corrupt => "corrupt"@,
                StoreError::Io => "io"@,
            },
    {
        match self {
            StoreError::NotInitialized => "not initialized",
            StoreError::IndexOutOfRange => "index out of range",
            StoreError::IndexOutOfSegment => "index out of segment",
            StoreError::IndexGap => "index gap",
            StoreError::InvariantViolation => "invariant violation",
            StoreError::Corrupt => "corrupt",
            StoreError::Io => "io",
        }
    }
}

} // verus!
