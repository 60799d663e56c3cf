//! Parameter and return types exchanged with the surrounding service layer.

use vstd::prelude::*;

use crate::store::Commitment;

verus! {

/// Raw parameters of a push request: the canonical bytes of one value.
pub struct PushParams(pub Vec<u8>);

/// What a successful push reports.
pub struct PushReturn {
    /// The new root of the accumulator MMR after the value was pushed into it.
    pub root: Commitment,
    /// The index of the value that was just pushed into the accumulator.
    pub index: u64,
}

/// Parameters for creating a new machine instance in the surrounding service
/// layer.
pub struct CreateParams {
    /// Name of the machine to instantiate.
    pub machine_name: String,
}

} // verus!
