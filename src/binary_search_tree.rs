//! An unbalanced binary search tree with cached extremes.
use core::cmp::Ordering;
use vstd::prelude::*;

pub mod node;
pub mod operations;

use crate::key::{OrderedKey, lemma_strict_order};
use crate::tree::{
    Tree,
    deref_all,
    deref_pairs,
    greatest_option,
    has_ceiling,
    has_floor,
    is_ceiling,
    is_floor,
    is_greatest,
    is_least,
    least_option,
    strictly_sorted,
};
use node::BinaryNode;

verus! {

/// A set of keys kept as an unbalanced binary search tree. The least and the
/// greatest key are cached beside the root.
pub struct BinarySearchTree<K> {
    root: Option<Box<BinaryNode<K>>>,
    min_value: Option<K>,
    max_value: Option<K>,
}

impl<K: OrderedKey> View for BinarySearchTree<K> {
    type V = Tree<K>;

    closed spec fn view(&self) -> Tree<K> {
        BinaryNode::shape_of(self.root)
    }
}

impl<K: OrderedKey> BinarySearchTree<K> {
    /// The search order holds, the caches hold the extremes, and the number of
    /// keys fits in a `usize`.
    pub closed spec fn well_formed(&self) -> bool {
        &&& self@.ordered()
        &&& least_option(self@.keys(), self.min_value)
        &&& greatest_option(self@.keys(), self.max_value)
        &&& self@.keys().len() <= usize::MAX
    }

    /// A well-formed tree is ordered, and holds one key per node.
    pub proof fn lemma_well_formed(&self)
        requires
            self.well_formed(),
        ensures
            self@.ordered(),
            self@.keys().len() == self@.size(),
    {
        self@.lemma_size();
    }

    /// An empty tree.
    pub fn new() -> (r: Self)
        ensures
            r.well_formed(),
            r@ == Tree::<K>::Empty,
    {
        BinarySearchTree { root: None, min_value: None, max_value: None }
    }

    /// Whether the tree holds no key.
    pub fn is_empty(&self) -> (r: bool)
        requires
            self.well_formed(),
        ensures
            r == (self@.keys() == Set::<K>::empty()),
    {
        proof {
            if self.root.is_some() {
                assert(self@.keys().contains(self.root.unwrap().value));
            }
        }
        self.root.is_none()
    }

    /// Adds `value` as a new leaf on its search path. A key that is already
    /// present leaves the tree as it was. The cached extremes are compared with
    /// the new key.
    pub fn insert(&mut self, value: K)
        requires
            old(self).well_formed(),
            old(self)@.keys().len() < usize::MAX,
        ensures
            final(self).well_formed(),
            final(self)@ == old(self)@.insert_leaf(value),
            final(self)@.keys() == old(self)@.keys().insert(value),
            old(self)@.keys().contains(value) ==> final(self)@ == old(self)@,
    {
        let ghost keys = self@.keys();
        proof {
            lemma_strict_order::<K>();
            self@.lemma_keys_finite();
        }
        match (self.min_value, self.max_value) {
            (Some(lo), Some(hi)) => {
                if matches!(value.compare(&lo), Ordering::Less) {
                    self.min_value = Some(value);
                }
                if matches!(hi.compare(&value), Ordering::Less) {
                    self.max_value = Some(value);
                }
            },
            _ => {
                self.min_value = Some(value);
                self.max_value = Some(value);
            },
        }
        BinaryNode::insert_at(&mut self.root, value);
        proof {
            old(self)@.lemma_insert_leaf(value);
            let ks = keys.insert(value);
            assert(ks.contains(value));
            if keys == Set::<K>::empty() {
                assert(ks =~= set![value]);
            }
        }
    }

    /// The least key under the root, found at the end of the leftmost path.
    fn refind_min(&self) -> (r: Option<K>)
        requires
            self@.ordered(),
        ensures
            least_option(self@.keys(), r),
    {
        match &self.root {
            None => None,
            Some(n) => Some(BinaryNode::min_below(n)),
        }
    }

    /// The greatest key under the root, found at the end of the rightmost path.
    fn refind_max(&self) -> (r: Option<K>)
        requires
            self@.ordered(),
        ensures
            greatest_option(self@.keys(), r),
    {
        match &self.root {
            None => None,
            Some(n) => Some(BinaryNode::max_below(n)),
        }
    }

    /// Removes `value`; a key that is absent leaves the tree as it was. The
    /// cached extremes are found again afterwards.
    pub fn remove(&mut self, value: &K)
        requires
            old(self).well_formed(),
        ensures
            final(self).well_formed(),
            final(self)@ == old(self)@.remove_splice(*value),
            final(self)@.keys() == old(self)@.keys().remove(*value),
            !old(self)@.keys().contains(*value) ==> final(self)@ == old(self)@,
    {
        BinaryNode::remove_at(&mut self.root, value);
        proof {
            old(self)@.lemma_remove_splice(*value);
        }
        self.min_value = self.refind_min();
        self.max_value = self.refind_max();
        proof {
            self@.lemma_keys_finite();
            old(self)@.lemma_keys_finite();
            vstd::set_lib::lemma_len_subset(self@.keys(), old(self)@.keys());
        }
    }

    /// Whether `value` is in the tree.
    pub fn contains(&self, value: &K) -> (r: bool)
        requires
            self.well_formed(),
        ensures
            r == self@.keys().contains(*value),
    {
        proof {
            lemma_strict_order::<K>();
        }
        let mut cursor = &self.root;
        loop
            invariant
                BinaryNode::shape_of(*cursor).ordered(),
                self@.keys().contains(*value) == BinaryNode::shape_of(*cursor).keys().contains(
                    *value,
                ),
            decreases *cursor,
        {
            match cursor {
                None => {
                    return false;
                },
                Some(n) => {
                    match value.compare(&n.value) {
                        Ordering::Less => {
                            assert(!BinaryNode::shape_of(n.right).keys().contains(*value));
                            cursor = &n.left;
                        },
                        Ordering::Greater => {
                            assert(!BinaryNode::shape_of(n.left).keys().contains(*value));
                            cursor = &n.right;
                        },
                        Ordering::Equal => {
                            return true;
                        },
                    }
                },
            }
        }
    }

    /// The least key, or none for an empty tree.
    pub fn min(&self) -> (r: Option<&K>)
        requires
            self.well_formed(),
        ensures
            match r {
                None => self@.keys() == Set::<K>::empty(),
                Some(m) => is_least(self@.keys(), *m),
            },
    {
        match &self.min_value {
            None => None,
            Some(m) => Some(m),
        }
    }

    /// The greatest key, or none for an empty tree.
    pub fn max(&self) -> (r: Option<&K>)
        requires
            self.well_formed(),
        ensures
            match r {
                None => self@.keys() == Set::<K>::empty(),
                Some(m) => is_greatest(self@.keys(), *m),
            },
    {
        match &self.max_value {
            None => None,
            Some(m) => Some(m),
        }
    }
    /// Runs the breadth-first walk to its end: the keys level by level, the
    /// parent-child links in the same order, and the number of levels.
    fn walk_levels(&self) -> (r: (Vec<&K>, Vec<(&K, &K)>, usize))
        requires
            self.well_formed(),
        ensures
            deref_all(r.0@) == self@.level_order(),
            deref_pairs(r.1@) == self@.connections(),
            r.2 == self@.levels(),
    {
        let mut keys: Vec<&K> = Vec::new();
        let mut links: Vec<(&K, &K)> = Vec::new();
        let mut level: Vec<&Box<BinaryNode<K>>> = Vec::new();
        if let Some(root) = &self.root {
            level.push(root);
        }
        let mut depth: usize = 0;
        proof {
            assert(BinaryNode::shapes(level@) =~= self@.subtrees_at(0));
            self@.lemma_levels_le_size();
            self@.lemma_size();
            assert(deref_all(keys@) =~= self@.first_levels(0));
            assert(deref_pairs(links@) =~= self@.first_links(0));
        }
        while level.len() > 0
            invariant
                BinaryNode::shapes(level@) == self@.subtrees_at(depth as nat),
                deref_all(keys@) == self@.first_levels(depth as nat),
                deref_pairs(links@) == self@.first_links(depth as nat),
                depth <= self@.levels(),
                self@.levels() <= usize::MAX,
            decreases self@.levels() - depth,
        {
            proof {
                self@.lemma_subtrees_at(depth as nat);
            }
            level = BinaryNode::next_level(&level, &mut keys, &mut links);
            depth = depth + 1;
        }
        proof {
            self@.lemma_subtrees_at(depth as nat);
        }
        (keys, links, depth)
    }

    /// The number of edges on a longest path down from the root; 0 for an
    /// empty tree and for a single node.
    pub fn height(&self) -> (r: usize)
        requires
            self.well_formed(),
        ensures
            r == self@.height(),
    {
        let (_, _, levels) = self.walk_levels();
        if levels == 0 {
            0
        } else {
            levels - 1
        }
    }

    /// The keys in pre-order: node, left subtree, right subtree.
    pub fn pre_order(&self) -> (r: Vec<&K>)
        requires
            self.well_formed(),
        ensures
            deref_all(r@) == self@.pre_order(),
    {
        let mut out: Vec<&K> = Vec::new();
        BinaryNode::collect_pre_order(&self.root, &mut out);
        assert(deref_all(out@) =~= self@.pre_order());
        out
    }

    /// The keys in in-order: strictly increasing, each key once.
    pub fn in_order(&self) -> (r: Vec<&K>)
        requires
            self.well_formed(),
        ensures
            deref_all(r@) == self@.in_order(),
            strictly_sorted(deref_all(r@)),
            forall|k: K| #[trigger] deref_all(r@).contains(k) <==> self@.keys().contains(k),
    {
        let mut out: Vec<&K> = Vec::new();
        BinaryNode::collect_in_order(&self.root, &mut out);
        assert(deref_all(out@) =~= self@.in_order());
        proof {
            self@.lemma_in_order_sorted();
            self@.lemma_traversals();
        }
        out
    }

    /// The keys in post-order: left subtree, right subtree, node.
    pub fn post_order(&self) -> (r: Vec<&K>)
        requires
            self.well_formed(),
        ensures
            deref_all(r@) == self@.post_order(),
    {
        let mut out: Vec<&K> = Vec::new();
        BinaryNode::collect_post_order(&self.root, &mut out);
        assert(deref_all(out@) =~= self@.post_order());
        out
    }

    /// The keys in breadth-first order: level by level, each from left to right.
    pub fn level_order(&self) -> (r: Vec<&K>)
        requires
            self.well_formed(),
        ensures
            deref_all(r@) == self@.level_order(),
    {
        let (keys, _, _) = self.walk_levels();
        keys
    }

    /// The number of keys in the tree.
    pub fn number_of_elements(&self) -> (r: usize)
        requires
            self.well_formed(),
        ensures
            r == self@.keys().len(),
    {
        let all = self.pre_order();
        proof {
            self@.lemma_traversals();
            self@.lemma_size();
        }
        all.len()
    }

    /// Every parent-child link as a pair of keys, in breadth-first order of the
    /// parents, the left child's link first.
    pub fn find_connections(&self) -> (r: Vec<(&K, &K)>)
        requires
            self.well_formed(),
        ensures
            deref_pairs(r@) == self@.connections(),
    {
        let (_, links, _) = self.walk_levels();
        links
    }

    /// The least key at or above `value`, or none if every key is below it.
    pub fn ceil(&self, value: &K) -> (r: Option<&K>)
        requires
            self.well_formed(),
        ensures
            match r {
                None => !has_ceiling(self@.keys(), *value),
                Some(c) => is_ceiling(self@.keys(), *value, *c),
            },
    {
        proof {
            lemma_strict_order::<K>();
        }
        let ghost all = self@.keys();
        let mut result: Option<&K> = None;
        let mut cursor = &self.root;
        loop
            invariant
                all == self@.keys(),
                BinaryNode::shape_of(*cursor).ordered(),
                forall|x: K| #[trigger] BinaryNode::shape_of(*cursor).keys().contains(x) ==> all.contains(x),
                result is None ==> forall|x: K| #[trigger] all.contains(x) && !x.less(*value)
                    ==> BinaryNode::shape_of(*cursor).keys().contains(x),
                result is Some ==> all.contains(*result->0),
                result is Some ==> !(*result->0).less(*value),
                result is Some ==> forall|x: K| #[trigger] all.contains(x) && !x.less(*value)
                    && !BinaryNode::shape_of(*cursor).keys().contains(x) ==> !x.less(*result->0),
                result is Some ==> forall|x: K| #[trigger] BinaryNode::shape_of(*cursor).keys().contains(x)
                    ==> x.less(*result->0),
            decreases *cursor,
        {
            match cursor {
                None => {
                    return result;
                },
                Some(n) => {
                    let ghost here = BinaryNode::shape_of(*cursor).keys();
                    let ghost ls = BinaryNode::shape_of(n.left).keys();
                    let ghost rs = BinaryNode::shape_of(n.right).keys();
                    assert(here == ls.union(rs).insert(n.value));
                    assert(here.contains(n.value));
                    assert(forall|x: K| #[trigger] ls.contains(x) ==> here.contains(x) && x.less(n.value));
                    assert(forall|x: K| #[trigger] rs.contains(x) ==> here.contains(x) && n.value.less(x));
                    match n.value.compare(value) {
                        Ordering::Equal => {
                            return Some(&n.value);
                        },
                        Ordering::Less => {
                            proof {
                                assert forall|x: K| #[trigger] all.contains(x) && !x.less(*value) && here.contains(x) implies rs.contains(x) by {
                                    if ls.contains(x) {
                                        K::lemma_transitive(x, n.value, *value);
                                    }
                                }
                            }
                            cursor = &n.right;
                        },
                        Ordering::Greater => {
                            proof {
                                assert forall|x: K| #[trigger] all.contains(x) && !x.less(*value) && !ls.contains(x) implies !x.less(n.value) by {
                                    if x.less(n.value) {
                                        if here.contains(x) {
                                            assert(ls.contains(x) || rs.contains(x) || x == n.value);
                                            if rs.contains(x) {
                                                K::lemma_transitive(x, n.value, x);
                                            }
                                            K::lemma_irreflexive(x);
                                        } else if result is Some {
                                            assert(n.value.less(*result->0));
                                            K::lemma_transitive(x, n.value, *result->0);
                                        }
                                    }
                                }
                            }
                            result = Some(&n.value);
                            cursor = &n.left;
                        },
                    }
                },
            }
        }
    }

    /// The greatest key at or below `value`, or none if every key is above it.
    pub fn floor(&self, value: &K) -> (r: Option<&K>)
        requires
            self.well_formed(),
        ensures
            match r {
                None => !has_floor(self@.keys(), *value),
                Some(f) => is_floor(self@.keys(), *value, *f),
            },
    {
        proof {
            lemma_strict_order::<K>();
        }
        let ghost all = self@.keys();
        let mut result: Option<&K> = None;
        let mut cursor = &self.root;
        loop
            invariant
                all == self@.keys(),
                BinaryNode::shape_of(*cursor).ordered(),
                forall|x: K| #[trigger] BinaryNode::shape_of(*cursor).keys().contains(x) ==> all.contains(x),
                result is None ==> forall|x: K| #[trigger] all.contains(x) && !(*value).less(x)
                    ==> BinaryNode::shape_of(*cursor).keys().contains(x),
                result is Some ==> all.contains(*result->0),
                result is Some ==> !(*value).less(*result->0),
                result is Some ==> forall|x: K| #[trigger] all.contains(x) && !(*value).less(x)
                    && !BinaryNode::shape_of(*cursor).keys().contains(x) ==> !(*result->0).less(x),
                result is Some ==> forall|x: K| #[trigger] BinaryNode::shape_of(*cursor).keys().contains(x)
                    ==> (*result->0).less(x),
            decreases *cursor,
        {
            match cursor {
                None => {
                    return result;
                },
                Some(n) => {
                    let ghost here = BinaryNode::shape_of(*cursor).keys();
                    let ghost ls = BinaryNode::shape_of(n.left).keys();
                    let ghost rs = BinaryNode::shape_of(n.right).keys();
                    assert(here == ls.union(rs).insert(n.value));
                    assert(here.contains(n.value));
                    assert(forall|x: K| #[trigger] ls.contains(x) ==> here.contains(x) && x.less(n.value));
                    assert(forall|x: K| #[trigger] rs.contains(x) ==> here.contains(x) && n.value.less(x));
                    match n.value.compare(value) {
                        Ordering::Equal => {
                            return Some(&n.value);
                        },
                        Ordering::Greater => {
                            proof {
                                assert forall|x: K| #[trigger] all.contains(x) && !(*value).less(x) && here.contains(x) implies ls.contains(x) by {
                                    if rs.contains(x) {
                                        K::lemma_transitive(*value, n.value, x);
                                    }
                                }
                            }
                            cursor = &n.left;
                        },
                        Ordering::Less => {
                            proof {
                                assert forall|x: K| #[trigger] all.contains(x) && !(*value).less(x) && !rs.contains(x) implies !n.value.less(x) by {
                                    if n.value.less(x) {
                                        if here.contains(x) {
                                            assert(ls.contains(x) || rs.contains(x) || x == n.value);
                                            if ls.contains(x) {
                                                K::lemma_transitive(x, n.value, x);
                                            }
                                            K::lemma_irreflexive(x);
                                        } else if result is Some {
                                            assert((*result->0).less(n.value));
                                            K::lemma_transitive(*result->0, n.value, x);
                                        }
                                    }
                                }
                            }
                            result = Some(&n.value);
                            cursor = &n.right;
                        },
                    }
                },
            }
        }
    }
}

impl<K: OrderedKey> Default for BinarySearchTree<K> {
    /// An empty tree.
    fn default() -> (r: Self)
        ensures
            r.well_formed(),
            r@ == Tree::<K>::Empty,
    {
        Self::new()
    }
}

} // verus!
