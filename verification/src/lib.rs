//! Order-dense identifiers for replicated ordered collections.
//!
//! An identifier is a sequence of fixed-width digit levels; `between`
//! produces a fresh identifier strictly between two existing ones,
//! extending precision whenever no value exists at the current width.

pub mod composite;
pub mod digit;
pub mod laws;

pub use composite::CompositeId;
pub use digit::compute_len;
pub use digit::Id;
