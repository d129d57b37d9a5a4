//! Search trees. Each holds a set of values and hands them out in ascending
//! order.
use vstd::prelude::*;
use crate::order::lt;

pub mod binary_search_tree;
pub mod avl_tree;
pub mod red_black_tree;
pub mod b_tree;

verus! {

/// The values that the references of `s` refer to.
pub open spec fn targets<T>(s: Seq<&T>) -> Seq<T> {
    s.map_values(|x: &T| *x)
}

/// `s` is in strictly ascending order.
pub open spec fn strictly_ascending<T: Ord>(s: Seq<T>) -> bool {
    forall|i: int, j: int| 0 <= i < j < s.len() ==> lt(s[i], s[j])
}

} // verus!
