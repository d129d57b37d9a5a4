//! Priority queues.
use vstd::prelude::*;

pub mod queue_model;
pub mod fibonacci_heap;
pub mod binary_heap;
pub mod binomial_heap;

verus! {

} // verus!
