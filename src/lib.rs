//! Containers of values that can be looked up by a key derived from each value.

pub mod base;
pub mod btree;
pub mod hashmap;

pub use base::IndexedVector;
pub use btree::{BTreeIndexedVector, KeyBound};
pub use hashmap::HashIndexedVector;
