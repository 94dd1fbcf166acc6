//! An insertion-ordered hash map engine.
//!
//! A dense entry store holds the records in insertion order; an open-addressed
//! index table maps each cached hash to the position of its record. The raw
//! entry layer gives hash-level access to both, and the slice view gives
//! order-sensitive positional access to the entry store alone.

pub mod equivalent;
pub mod hashing;
pub mod map;
pub mod set;
pub mod util;

pub use crate::equivalent::Equivalent;
pub use crate::hashing::FixedState;
pub use crate::hashing::HashBuilder;
pub use crate::map::HashValue;
pub use crate::map::IndexMap;
pub use crate::set::IndexSet;
