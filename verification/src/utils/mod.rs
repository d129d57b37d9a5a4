//! Small helpers.
use vstd::prelude::*;

pub mod memory;

verus! {

} // verus!
