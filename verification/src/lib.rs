//! An append-only, cryptographically authenticated accumulator: a Merkle
//! Mountain Range (MMR) over opaque serialized values, backed by a
//! content-addressed block store.
//!
//! The accumulator keeps one peak per set bit of its leaf count.  Pushing a
//! value appends a new leaf reference and then merges same-height peaks like
//! carries in a binary counter; the root commitment is obtained by "bagging"
//! the peaks from the shortest to the tallest.  Any previously pushed value
//! can be retrieved again from its insertion index alone, because the shape
//! of the forest is fully determined by the leaf count.
//!
//! The arithmetic of the shape lives in [`bits`], the engine and its
//! contracts in [`mmr`], and the store model in [`store`].  The [`forest`]
//! module proves the central retrieval theorem: an accumulator grown by
//! pushes represents its values in order, and looking any index up yields
//! exactly the value pushed there.

pub mod bits;
pub mod error;
pub mod forest;
pub mod mmr;
pub mod params;
pub mod store;
