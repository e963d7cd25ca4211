//! A set of `u32` values kept as a minimal list of disjoint, ordered,
//! half-open runs, with proofs that insertion and deletion keep it canonical.

pub mod model;
pub mod compact_set;
pub mod laws;

pub use compact_set::{CompactSet, InvariantViolation};
