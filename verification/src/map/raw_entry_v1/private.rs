//! Keeps the raw entry layer to the one map type.

use vstd::prelude::*;
use crate::map::IndexMap;

verus! {

/// Marks the one type that offers the raw entry layer. No other crate can
/// name this trait, so none can offer the layer for a type of its own.
pub trait Sealed {

}

impl<K, V, S> Sealed for IndexMap<K, V, S> {

}

} // verus!
