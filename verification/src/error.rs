//! The failures that the store reports.

use vstd::prelude::*;

verus! {

/// Why an operation was refused. A refused operation leaves the rows of the
/// store as they were.
#[derive(Clone, Copy, Debug, PartialEq, Eq, Structural)]
pub enum StoreError {
    /// A travel or a move with this identifier is already stored.
    DuplicateIdentifier,
    /// A fix with this timestamp is already stored.
    DuplicateTimestamp,
    /// No travel has this identifier.
    UnknownTravel,
    /// No move has this identifier.
    UnknownMove,
    /// The end of a move would precede its start.
    InvalidInterval,
    /// The move has an end already.
    AlreadyEnded,
    /// A latitude or a longitude lies outside the globe.
    OutOfRange,
    /// A migration's version does not exceed the versions before it.
    MigrationOrderError,
    /// The tables are not there: the schema has not been brought up to date.
    StorageUnavailable,
}

impl StoreError {
    /// Whether the failure is one that the caller cannot mend by changing
    /// its input.
    pub fn is_fatal(&self) -> (fatal: bool)
        ensures
            fatal == (*self == StoreError::StorageUnavailable),
    {
        match self {
            StoreError::StorageUnavailable => true,
            _ => false,
        }
    }
}

} // verus!
