//! Classical data structures for ordered storage, prioritization and graph
//! traversal, with machine-checked contracts.
use vstd::prelude::*;

pub mod order;
pub mod heaps;
pub mod trees;
pub mod graphs;
pub mod hash_maps;
pub mod utils;

verus! {

} // verus!
