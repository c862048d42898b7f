//! An ordered `u64` key-value map backed by a verified red-black tree,
//! together with six elementary in-place sorting routines sharing one
//! verified sort contract.

pub mod red_black_tree;
pub mod sorting;
