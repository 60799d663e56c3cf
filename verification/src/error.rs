//! Failure kinds surfaced by the accumulator.

use vstd::prelude::*;

verus! {

/// What can go wrong while operating on the accumulator.
#[derive(Clone, Copy, Debug, PartialEq, Eq, Structural)]
pub enum Error {
    /// An argument was outside the accepted range: a leaf index at or past the
    /// leaf count, or a pair combination invoked with a missing child.
    InvalidArgument,
    /// A block needed by the operation is absent from the store.
    NotFound,
    /// A block needed by the operation exists but does not have the expected
    /// shape (for example, a pair node was expected and something else found).
    Corrupt,
    /// The underlying store reported a failure while writing.  With the
    /// in-memory store this does not arise; it is kept so that failures of a
    /// fallible backend pass through unchanged.
    StoreFailure,
}

} // verus!
