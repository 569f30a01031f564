//! Errors that the persistence core reports to its callers.

use vstd::prelude::*;

verus! {

/// Why an operation failed. Every failed write leaves the store as it was.
#[derive(Debug, Clone, Copy, PartialEq, Eq, Structural)]
pub enum ServerError {
    /// The acting user may not do this.
    Forbidden,
    /// Nothing matched the query.
    NotFound,
    /// A stored list of work-part indices is malformed.
    DecodeError,
    /// A recording that a track set refers to does not exist.
    ReferentialError,
    /// The stored rows break a constraint: a duplicate key, or a gap in the positions.
    StorageError,
}

} // verus!
