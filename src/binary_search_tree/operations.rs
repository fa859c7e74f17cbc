//! Free functions over a binary search tree.
use vstd::prelude::*;

use super::BinarySearchTree;
use crate::key::OrderedKey;
use crate::tree::deref_pairs;

verus! {

/// Every parent-child link of `bst` as a pair of keys, in breadth-first order
/// of the parents, the left child's link first.
pub fn find_connections<K: OrderedKey>(bst: &BinarySearchTree<K>) -> (r: Vec<(&K, &K)>)
    requires
        bst.well_formed(),
    ensures
        deref_pairs(r@) == bst@.connections(),
{
    bst.find_connections()
}

} // verus!
