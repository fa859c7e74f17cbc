//! Ordered set containers over a totally ordered key type: an unbalanced
//! binary search tree, an AVL tree and a left-leaning red-black tree.
use vstd::prelude::*;

pub mod key;
pub mod tree;
pub mod binary_search_tree;
pub mod avl_tree;
pub mod red_black_tree;

verus! {

} // verus!
