//! A height-balanced (AVL) binary search tree with cached extremes.
use core::cmp::Ordering;
use vstd::prelude::*;

pub mod node;

use crate::key::{OrderedKey, lemma_strict_order};
use crate::tree::{
    Tree,
    deref_all,
    deref_pairs,
    greatest_option,
    has_ceiling,
    has_floor,
    is_ceiling,
    is_floor,
    is_greatest,
    is_least,
    least_option,
    strictly_sorted,
    exp2,
    within,
    deref_option,
};
use node::AVLNode;

verus! {

/// A set of keys kept as an AVL tree: a binary search tree in which the two
/// subtrees of every node differ by at most one level. The least and the
/// greatest key are cached beside the root.
pub struct AVLTree<K> {
    root: Option<Box<AVLNode<K>>>,
    min_value: Option<K>,
    max_value: Option<K>,
}

impl<K: OrderedKey> View for AVLTree<K> {
    type V = Tree<K>;

    closed spec fn view(&self) -> Tree<K> {
        AVLNode::shape_of(self.root)
    }
}

impl<K: OrderedKey> AVLTree<K> {
    /// The search order and the AVL balance hold, every node stores the number
    /// of levels below it, the caches hold the extremes, and the number of keys
    /// fits in a `usize`.
    pub closed spec fn well_formed(&self) -> bool {
        &&& self@.ordered()
        &&& self@.balanced()
        &&& AVLNode::heights_ok(self.root)
        &&& least_option(self@.keys(), self.min_value)
        &&& greatest_option(self@.keys(), self.max_value)
        &&& self@.keys().len() <= usize::MAX
    }

    /// Every node stores the number of levels of its subtree.
    pub closed spec fn heights_stored(&self) -> bool {
        AVLNode::heights_ok(self.root)
    }

    /// A well-formed tree is ordered and balanced, and its nodes store their
    /// heights.
    pub proof fn lemma_well_formed(&self)
        requires
            self.well_formed(),
        ensures
            self@.ordered(),
            self@.balanced(),
            self.heights_stored(),
            self@.keys().len() == self@.size(),
    {
        self@.lemma_size();
    }

    /// The balance keeps the tree shallow: with `n` keys it has at most
    /// `2*log2(n + 1)` levels, and `height` returns one less.
    pub proof fn lemma_logarithmic_height(&self)
        requires
            self.well_formed(),
        ensures
            exp2(self@.levels()) <= (self@.keys().len() + 1) * (self@.keys().len() + 1),
    {
        self@.lemma_balanced_levels();
        self@.lemma_size();
    }

    /// An empty tree.
    pub fn new() -> (r: Self)
        ensures
            r.well_formed(),
            r@ == Tree::<K>::Empty,
    {
        AVLTree { root: None, min_value: None, max_value: None }
    }

    /// Whether the tree holds no key.
    pub fn is_empty(&self) -> (r: bool)
        requires
            self.well_formed(),
        ensures
            r == (self@.keys() == Set::<K>::empty()),
    {
        proof {
            if self.root.is_some() {
                assert(self@.keys().contains(self.root.unwrap().value));
            }
        }
        self.root.is_none()
    }

    /// Adds `value` on its search path and rebalances every node on the way
    /// back up. A key that is already present leaves the tree as it was.
    pub fn insert(&mut self, value: K)
        requires
            old(self).well_formed(),
            old(self)@.keys().len() < usize::MAX,
        ensures
            final(self).well_formed(),
            final(self)@.balanced(),
            final(self)@ == old(self)@.avl_insert(value),
            final(self)@.keys() == old(self)@.keys().insert(value),
            old(self)@.keys().contains(value) ==> final(self)@ == old(self)@,
    {
        proof {
            self@.lemma_size();
        }
        let root = self.root.take();
        self.root = Self::insert_rec(root, value);
        self.min_value = self.refind_min();
        self.max_value = self.refind_max();
        proof {
            old(self)@.lemma_keys_finite();
        }
    }

    /// Inserts into the subtree `node` and returns its new root.
    fn insert_rec(node: Option<Box<AVLNode<K>>>, value: K) -> (r: Option<Box<AVLNode<K>>>)
        requires
            AVLNode::valid(node),
            AVLNode::shape_of(node).size() < usize::MAX,
        ensures
            AVLNode::valid(r),
            AVLNode::shape_of(r).keys() == AVLNode::shape_of(node).keys().insert(value),
            AVLNode::shape_of(r) == AVLNode::shape_of(node).avl_insert(value),
            AVLNode::shape_of(node).keys().contains(value) ==> r == node,
            AVLNode::shape_of(r).levels() <= AVLNode::shape_of(node).levels() + 1,
            AVLNode::shape_of(node).levels() <= AVLNode::shape_of(r).levels() + 1,
            AVLNode::shape_of(r).size() <= AVLNode::shape_of(node).size() + 1,
        decreases node,
    {
        match node {
            None => Some(Box::new(AVLNode::new(value))),
            Some(mut n) => {
                let ghost old_n = *n;
                proof {
                    lemma_strict_order::<K>();
                    AVLNode::shape_of(n.left).lemma_levels_le_size();
                    AVLNode::shape_of(n.right).lemma_levels_le_size();
                }
                match value.compare(&n.value) {
                    Ordering::Less => {
                        assert(!AVLNode::shape_of(n.right).keys().contains(value));
                        let l = n.left.take();
                        n.left = Self::insert_rec(l, value);
                        proof {
                            AVLNode::shape_of(n.left).lemma_levels_le_size();
                        }
                    },
                    Ordering::Greater => {
                        assert(!AVLNode::shape_of(n.left).keys().contains(value));
                        let rt = n.right.take();
                        n.right = Self::insert_rec(rt, value);
                        proof {
                            AVLNode::shape_of(n.right).lemma_levels_le_size();
                        }
                    },
                    Ordering::Equal => {
                        assert(AVLNode::shape_of(node).keys() =~= AVLNode::shape_of(node).keys().insert(value));
                        return Some(n);
                    },
                }
                proof {
                    AVLNode::lemma_height_of(n.left);
                    AVLNode::lemma_height_of(n.right);
                    assert(AVLNode::shape_of(node).size() == AVLNode::shape_of(old_n.left).size()
                        + AVLNode::shape_of(old_n.right).size() + 1);
                }
                n.update_height();
                assert(n.shape().keys() =~= AVLNode::shape_of(node).keys().insert(value));
                assert(AVLNode::heights_ok(Some(n)));
                proof {
                    if AVLNode::shape_of(node).keys().contains(value) {
                        assert(n == old_n);
                    }
                }
                Some(n.rebalance())
            },
        }
    }

    /// Takes the least key out of the subtree under `node`, rebalancing on the
    /// way back up, and returns it with the subtree that is left.
    fn detach_min(node: Box<AVLNode<K>>) -> (r: (K, Option<Box<AVLNode<K>>>))
        requires
            AVLNode::valid(Some(node)),
            AVLNode::shape_of(Some(node)).size() <= usize::MAX,
        ensures
            is_least(AVLNode::shape_of(Some(node)).keys(), r.0),
            AVLNode::shape_of(r.1).keys() == AVLNode::shape_of(Some(node)).keys().remove(r.0),
            AVLNode::valid(r.1),
            r.0 == AVLNode::shape_of(Some(node)).leftmost(),
            AVLNode::shape_of(r.1) == AVLNode::shape_of(Some(node)).avl_without_leftmost(),
            AVLNode::shape_of(r.1).levels() <= AVLNode::shape_of(Some(node)).levels(),
            AVLNode::shape_of(Some(node)).levels() <= AVLNode::shape_of(r.1).levels() + 1,
            AVLNode::shape_of(r.1).size() < AVLNode::shape_of(Some(node)).size(),
        decreases node,
    {
        let mut node = node;
        let ghost t = Some(node);
        proof {
            lemma_strict_order::<K>();
            AVLNode::shape_of(node.left).lemma_levels_le_size();
            AVLNode::shape_of(node.right).lemma_levels_le_size();
        }
        let ghost ls = AVLNode::shape_of(node.left);
        let ghost rs = AVLNode::shape_of(node.right);
        match node.left.take() {
            Some(left) => {
                let (m, new_left) = Self::detach_min(left);
                assert(ls.keys().contains(m));
                assert(m.less(node.value));
                assert(!rs.keys().contains(m));
                node.left = new_left;
                proof {
                    AVLNode::shape_of(node.left).lemma_levels_le_size();
                }
                proof {
                    AVLNode::lemma_height_of(node.left);
                    AVLNode::lemma_height_of(node.right);
                    assert(AVLNode::shape_of(t).size() == ls.size() + rs.size() + 1);
                }
                node.update_height();
                assert(node.shape().keys() =~= AVLNode::shape_of(t).keys().remove(m));
                assert(AVLNode::heights_ok(Some(node)));
                (m, Some(node.rebalance()))
            },
            None => {
                assert(ls.keys() =~= Set::empty());
                assert(!rs.keys().contains(node.value));
                assert(rs.keys() =~= AVLNode::shape_of(t).keys().remove(node.value));
                (node.value, node.right)
            },
        }
    }

    /// The least key under the root, found at the end of the leftmost path.
    fn refind_min(&self) -> (r: Option<K>)
        requires
            self@.ordered(),
        ensures
            least_option(self@.keys(), r),
    {
        match &self.root {
            None => None,
            Some(n) => Some(AVLNode::min_below(n)),
        }
    }

    /// The greatest key under the root, found at the end of the rightmost path.
    fn refind_max(&self) -> (r: Option<K>)
        requires
            self@.ordered(),
        ensures
            greatest_option(self@.keys(), r),
    {
        match &self.root {
            None => None,
            Some(n) => Some(AVLNode::max_below(n)),
        }
    }

    /// Removes `value`, rebalancing every node on the way back up; a key that
    /// is absent leaves the tree as it was. The cached extremes are found again
    /// afterwards.
    pub fn remove(&mut self, value: &K)
        requires
            old(self).well_formed(),
        ensures
            final(self).well_formed(),
            final(self)@.balanced(),
            final(self)@ == old(self)@.avl_remove(*value),
            final(self)@.keys() == old(self)@.keys().remove(*value),
            !old(self)@.keys().contains(*value) ==> final(self)@ == old(self)@,
    {
        proof {
            self@.lemma_size();
        }
        let root = self.root.take();
        self.root = Self::remove_node(root, value);
        self.min_value = self.refind_min();
        self.max_value = self.refind_max();
        proof {
            self@.lemma_keys_finite();
            old(self)@.lemma_keys_finite();
            vstd::set_lib::lemma_len_subset(self@.keys(), old(self)@.keys());
        }
    }

    /// Removes `value` from the subtree `node` and returns its new root; a node
    /// with two children takes the least key of its right subtree.
    fn remove_node(node: Option<Box<AVLNode<K>>>, value: &K) -> (r: Option<Box<AVLNode<K>>>)
        requires
            AVLNode::valid(node),
            AVLNode::shape_of(node).size() <= usize::MAX,
        ensures
            AVLNode::valid(r),
            AVLNode::shape_of(r).keys() == AVLNode::shape_of(node).keys().remove(*value),
            AVLNode::shape_of(r) == AVLNode::shape_of(node).avl_remove(*value),
            !AVLNode::shape_of(node).keys().contains(*value) ==> r == node,
            AVLNode::shape_of(r).levels() <= AVLNode::shape_of(node).levels(),
            AVLNode::shape_of(node).levels() <= AVLNode::shape_of(r).levels() + 1,
            AVLNode::shape_of(r).size() <= AVLNode::shape_of(node).size(),
        decreases node,
    {
        match node {
            None => None,
            Some(mut n) => {
                let ghost old_n = *n;
                proof {
                    lemma_strict_order::<K>();
                    AVLNode::shape_of(n.left).lemma_levels_le_size();
                    AVLNode::shape_of(n.right).lemma_levels_le_size();
                }
                let ghost ls = AVLNode::shape_of(n.left);
                let ghost rs = AVLNode::shape_of(n.right);
                match value.compare(&n.value) {
                    Ordering::Less => {
                        assert(!rs.keys().contains(*value));
                        let l = n.left.take();
                        n.left = Self::remove_node(l, value);
                    },
                    Ordering::Greater => {
                        assert(!ls.keys().contains(*value));
                        let rt = n.right.take();
                        n.right = Self::remove_node(rt, value);
                    },
                    Ordering::Equal => {
                        assert(!ls.keys().contains(*value));
                        assert(!rs.keys().contains(*value));
                        let l = n.left.take();
                        let rt = n.right.take();
                        return match (l, rt) {
                            (None, None) => {
                                assert(AVLNode::shape_of(None).keys() =~= AVLNode::shape_of(node).keys().remove(*value));
                                None
                            },
                            (Some(l), None) => {
                                assert(AVLNode::shape_of(Some(l)).keys() =~= AVLNode::shape_of(node).keys().remove(*value));
                                Some(l)
                            },
                            (None, Some(rt)) => {
                                assert(AVLNode::shape_of(Some(rt)).keys() =~= AVLNode::shape_of(node).keys().remove(*value));
                                Some(rt)
                            },
                            (Some(l), Some(rt)) => {
                                let (m, new_right) = Self::detach_min(rt);
                                n.value = m;
                                n.right = new_right;
                                n.left = Some(l);
                                proof {
                                    AVLNode::shape_of(n.right).lemma_levels_le_size();
                                    assert forall|k: K| #[trigger] ls.keys().contains(k) implies k.less(m) by {
                                        K::lemma_transitive(k, *value, m);
                                    }
                                }
                                proof {
                                    AVLNode::lemma_height_of(n.left);
                                    AVLNode::lemma_height_of(n.right);
                                    assert(AVLNode::shape_of(node).size() == ls.size() + rs.size() + 1);
                                }
                                n.update_height();
                                assert(n.shape().keys() =~= AVLNode::shape_of(node).keys().remove(*value));
                                assert(AVLNode::heights_ok(Some(n)));
                                Some(n.rebalance())
                            },
                        };
                    },
                }
                proof {
                    AVLNode::shape_of(n.left).lemma_levels_le_size();
                    AVLNode::shape_of(n.right).lemma_levels_le_size();
                }
                proof {
                    AVLNode::lemma_height_of(n.left);
                    AVLNode::lemma_height_of(n.right);
                    assert(AVLNode::shape_of(node).size() == ls.size() + rs.size() + 1);
                }
                n.update_height();
                assert(n.shape().keys() =~= AVLNode::shape_of(node).keys().remove(*value));
                assert(AVLNode::heights_ok(Some(n)));
                proof {
                    if !AVLNode::shape_of(node).keys().contains(*value) {
                        assert(n == old_n);
                    }
                }
                Some(n.rebalance())
            },
        }
    }

    /// Whether the subtree `node` is ordered with every key strictly between
    /// the bounds that are given.
    fn check_bst(node: &Option<Box<AVLNode<K>>>, min: Option<&K>, max: Option<&K>) -> (r: bool)
        ensures
            r == (AVLNode::shape_of(*node).ordered() && within(
                AVLNode::shape_of(*node).keys(),
                deref_option(min),
                deref_option(max),
            )),
        decreases *node,
    {
        proof {
            lemma_strict_order::<K>();
        }
        match node {
            None => {
                assert(AVLNode::shape_of(*node).keys() =~= Set::empty());
                true
            },
            Some(n) => {
                let ghost ls = AVLNode::shape_of(n.left).keys();
                let ghost rs = AVLNode::shape_of(n.right).keys();
                let ghost all = AVLNode::shape_of(*node).keys();
                assert(all == ls.union(rs).insert(n.value));
                assert(all.contains(n.value));
                if let Some(lo) = min {
                    if !matches!(lo.compare(&n.value), Ordering::Less) {
                        return false;
                    }
                }
                if let Some(hi) = max {
                    if !matches!(n.value.compare(hi), Ordering::Less) {
                        return false;
                    }
                }
                let left_ok = Self::check_bst(&n.left, min, Some(&n.value));
                if !left_ok {
                    proof {
                        if AVLNode::shape_of(*node).ordered() && within(all, deref_option(min), deref_option(max)) {
                            assert forall|k: K| #[trigger] ls.contains(k) implies (deref_option(min) is Some
                                ==> deref_option(min)->0.less(k)) && k.less(n.value) by {
                                assert(all.contains(k));
                            }
                            assert(within(ls, deref_option(min), Some(n.value)));
                        }
                    }
                    return false;
                }
                let right_ok = Self::check_bst(&n.right, Some(&n.value), max);
                proof {
                    if !right_ok {
                        if AVLNode::shape_of(*node).ordered() && within(all, deref_option(min), deref_option(max)) {
                            assert forall|k: K| #[trigger] rs.contains(k) implies n.value.less(k) && (
                            deref_option(max) is Some ==> k.less(deref_option(max)->0)) by {
                                assert(all.contains(k));
                            }
                            assert(within(rs, Some(n.value), deref_option(max)));
                        }
                    }
                    if right_ok {
                        assert forall|k: K| #[trigger] all.contains(k) implies (deref_option(min) is Some
                            ==> deref_option(min)->0.less(k)) && (deref_option(max) is Some ==> k.less(
                            deref_option(max)->0,
                        )) by {
                            if ls.contains(k) && deref_option(max) is Some {
                                K::lemma_transitive(k, n.value, deref_option(max)->0);
                            }
                            if rs.contains(k) && deref_option(min) is Some {
                                K::lemma_transitive(deref_option(min)->0, n.value, k);
                            }
                        }
                    }
                }
                right_ok
            },
        }
    }

    /// Whether the search order holds at every node.
    pub fn is_valid_bst(&self) -> (r: bool)
        ensures
            r == self@.ordered(),
    {
        Self::check_bst(&self.root, None, None)
    }

    /// Whether the subtree `node`, whose stored heights are right, is balanced.
    fn check_balance(node: &Option<Box<AVLNode<K>>>) -> (r: bool)
        requires
            AVLNode::heights_ok(*node),
        ensures
            r == AVLNode::shape_of(*node).balanced(),
        decreases *node,
    {
        match node {
            None => true,
            Some(n) => {
                let lh = AVLNode::height(&n.left);
                let rh = AVLNode::height(&n.right);
                proof {
                    AVLNode::lemma_height_of(n.left);
                    AVLNode::lemma_height_of(n.right);
                }
                let close = if lh >= rh {
                    lh - rh <= 1
                } else {
                    rh - lh <= 1
                };
                close && Self::check_balance(&n.left) && Self::check_balance(&n.right)
            },
        }
    }

    /// Whether every node's subtrees differ by at most one level.
    pub fn is_balanced(&self) -> (r: bool)
        requires
            self.heights_stored(),
        ensures
            r == self@.balanced(),
    {
        Self::check_balance(&self.root)
    }

    /// Whether `value` is in the tree.
    pub fn contains(&self, value: &K) -> (r: bool)
        requires
            self.well_formed(),
        ensures
            r == self@.keys().contains(*value),
    {
        proof {
            lemma_strict_order::<K>();
        }
        let mut cursor = &self.root;
        loop
            invariant
                AVLNode::shape_of(*cursor).ordered(),
                self@.keys().contains(*value) == AVLNode::shape_of(*cursor).keys().contains(
                    *value,
                ),
            decreases *cursor,
        {
            match cursor {
                None => {
                    return false;
                },
                Some(n) => {
                    match value.compare(&n.value) {
                        Ordering::Less => {
                            assert(!AVLNode::shape_of(n.right).keys().contains(*value));
                            cursor = &n.left;
                        },
                        Ordering::Greater => {
                            assert(!AVLNode::shape_of(n.left).keys().contains(*value));
                            cursor = &n.right;
                        },
                        Ordering::Equal => {
                            return true;
                        },
                    }
                },
            }
        }
    }

    /// The least key, or none for an empty tree.
    pub fn min(&self) -> (r: Option<&K>)
        requires
            self.well_formed(),
        ensures
            match r {
                None => self@.keys() == Set::<K>::empty(),
                Some(m) => is_least(self@.keys(), *m),
            },
    {
        match &self.min_value {
            None => None,
            Some(m) => Some(m),
        }
    }

    /// The greatest key, or none for an empty tree.
    pub fn max(&self) -> (r: Option<&K>)
        requires
            self.well_formed(),
        ensures
            match r {
                None => self@.keys() == Set::<K>::empty(),
                Some(m) => is_greatest(self@.keys(), *m),
            },
    {
        match &self.max_value {
            None => None,
            Some(m) => Some(m),
        }
    }
    /// Runs the breadth-first walk to its end: the keys level by level, the
    /// parent-child links in the same order, and the number of levels.
    fn walk_levels(&self) -> (r: (Vec<&K>, Vec<(&K, &K)>, usize))
        requires
            self.well_formed(),
        ensures
            deref_all(r.0@) == self@.level_order(),
            deref_pairs(r.1@) == self@.connections(),
            r.2 == self@.levels(),
    {
        let mut keys: Vec<&K> = Vec::new();
        let mut links: Vec<(&K, &K)> = Vec::new();
        let mut level: Vec<&Box<AVLNode<K>>> = Vec::new();
        if let Some(root) = &self.root {
            level.push(root);
        }
        let mut depth: usize = 0;
        proof {
            assert(AVLNode::shapes(level@) =~= self@.subtrees_at(0));
            self@.lemma_levels_le_size();
            self@.lemma_size();
            assert(deref_all(keys@) =~= self@.first_levels(0));
            assert(deref_pairs(links@) =~= self@.first_links(0));
        }
        while level.len() > 0
            invariant
                AVLNode::shapes(level@) == self@.subtrees_at(depth as nat),
                deref_all(keys@) == self@.first_levels(depth as nat),
                deref_pairs(links@) == self@.first_links(depth as nat),
                depth <= self@.levels(),
                self@.levels() <= usize::MAX,
            decreases self@.levels() - depth,
        {
            proof {
                self@.lemma_subtrees_at(depth as nat);
            }
            level = AVLNode::next_level(&level, &mut keys, &mut links);
            depth = depth + 1;
        }
        proof {
            self@.lemma_subtrees_at(depth as nat);
        }
        (keys, links, depth)
    }

    /// The number of edges on a longest path down from the root; 0 for an
    /// empty tree and for a single node.
    pub fn height(&self) -> (r: usize)
        requires
            self.well_formed(),
        ensures
            r == self@.height(),
    {
        let (_, _, levels) = self.walk_levels();
        if levels == 0 {
            0
        } else {
            levels - 1
        }
    }

    /// The keys in pre-order: node, left subtree, right subtree.
    pub fn pre_order(&self) -> (r: Vec<&K>)
        requires
            self.well_formed(),
        ensures
            deref_all(r@) == self@.pre_order(),
    {
        let mut out: Vec<&K> = Vec::new();
        AVLNode::collect_pre_order(&self.root, &mut out);
        assert(deref_all(out@) =~= self@.pre_order());
        out
    }

    /// The keys in in-order: strictly increasing, each key once.
    pub fn in_order(&self) -> (r: Vec<&K>)
        requires
            self.well_formed(),
        ensures
            deref_all(r@) == self@.in_order(),
            strictly_sorted(deref_all(r@)),
            forall|k: K| #[trigger] deref_all(r@).contains(k) <==> self@.keys().contains(k),
    {
        let mut out: Vec<&K> = Vec::new();
        AVLNode::collect_in_order(&self.root, &mut out);
        assert(deref_all(out@) =~= self@.in_order());
        proof {
            self@.lemma_in_order_sorted();
            self@.lemma_traversals();
        }
        out
    }

    /// The keys in post-order: left subtree, right subtree, node.
    pub fn post_order(&self) -> (r: Vec<&K>)
        requires
            self.well_formed(),
        ensures
            deref_all(r@) == self@.post_order(),
    {
        let mut out: Vec<&K> = Vec::new();
        AVLNode::collect_post_order(&self.root, &mut out);
        assert(deref_all(out@) =~= self@.post_order());
        out
    }

    /// The keys in breadth-first order: level by level, each from left to right.
    pub fn level_order(&self) -> (r: Vec<&K>)
        requires
            self.well_formed(),
        ensures
            deref_all(r@) == self@.level_order(),
    {
        let (keys, _, _) = self.walk_levels();
        keys
    }

    /// The number of keys in the tree.
    pub fn number_of_elements(&self) -> (r: usize)
        requires
            self.well_formed(),
        ensures
            r == self@.keys().len(),
    {
        let all = self.pre_order();
        proof {
            self@.lemma_traversals();
            self@.lemma_size();
        }
        all.len()
    }

    /// Every parent-child link as a pair of keys, in breadth-first order of the
    /// parents, the left child's link first.
    pub fn find_connections(&self) -> (r: Vec<(&K, &K)>)
        requires
            self.well_formed(),
        ensures
            deref_pairs(r@) == self@.connections(),
    {
        let (_, links, _) = self.walk_levels();
        links
    }

    /// The least key at or above `value`, or none if every key is below it.
    pub fn ceil(&self, value: &K) -> (r: Option<&K>)
        requires
            self.well_formed(),
        ensures
            match r {
                None => !has_ceiling(self@.keys(), *value),
                Some(c) => is_ceiling(self@.keys(), *value, *c),
            },
    {
        proof {
            lemma_strict_order::<K>();
        }
        let ghost all = self@.keys();
        let mut result: Option<&K> = None;
        let mut cursor = &self.root;
        loop
            invariant
                all == self@.keys(),
                AVLNode::shape_of(*cursor).ordered(),
                forall|x: K| #[trigger] AVLNode::shape_of(*cursor).keys().contains(x) ==> all.contains(x),
                result is None ==> forall|x: K| #[trigger] all.contains(x) && !x.less(*value)
                    ==> AVLNode::shape_of(*cursor).keys().contains(x),
                result is Some ==> all.contains(*result->0),
                result is Some ==> !(*result->0).less(*value),
                result is Some ==> forall|x: K| #[trigger] all.contains(x) && !x.less(*value)
                    && !AVLNode::shape_of(*cursor).keys().contains(x) ==> !x.less(*result->0),
                result is Some ==> forall|x: K| #[trigger] AVLNode::shape_of(*cursor).keys().contains(x)
                    ==> x.less(*result->0),
            decreases *cursor,
        {
            match cursor {
                None => {
                    return result;
                },
                Some(n) => {
                    let ghost here = AVLNode::shape_of(*cursor).keys();
                    let ghost ls = AVLNode::shape_of(n.left).keys();
                    let ghost rs = AVLNode::shape_of(n.right).keys();
                    assert(here == ls.union(rs).insert(n.value));
                    assert(here.contains(n.value));
                    assert(forall|x: K| #[trigger] ls.contains(x) ==> here.contains(x) && x.less(n.value));
                    assert(forall|x: K| #[trigger] rs.contains(x) ==> here.contains(x) && n.value.less(x));
                    match n.value.compare(value) {
                        Ordering::Equal => {
                            return Some(&n.value);
                        },
                        Ordering::Less => {
                            proof {
                                assert forall|x: K| #[trigger] all.contains(x) && !x.less(*value) && here.contains(x) implies rs.contains(x) by {
                                    if ls.contains(x) {
                                        K::lemma_transitive(x, n.value, *value);
                                    }
                                }
                            }
                            cursor = &n.right;
                        },
                        Ordering::Greater => {
                            proof {
                                assert forall|x: K| #[trigger] all.contains(x) && !x.less(*value) && !ls.contains(x) implies !x.less(n.value) by {
                                    if x.less(n.value) {
                                        if here.contains(x) {
                                            assert(ls.contains(x) || rs.contains(x) || x == n.value);
                                            if rs.contains(x) {
                                                K::lemma_transitive(x, n.value, x);
                                            }
                                            K::lemma_irreflexive(x);
                                        } else if result is Some {
                                            assert(n.value.less(*result->0));
                                            K::lemma_transitive(x, n.value, *result->0);
                                        }
                                    }
                                }
                            }
                            result = Some(&n.value);
                            cursor = &n.left;
                        },
                    }
                },
            }
        }
    }

    /// The greatest key at or below `value`, or none if every key is above it.
    pub fn floor(&self, value: &K) -> (r: Option<&K>)
        requires
            self.well_formed(),
        ensures
            match r {
                None => !has_floor(self@.keys(), *value),
                Some(f) => is_floor(self@.keys(), *value, *f),
            },
    {
        proof {
            lemma_strict_order::<K>();
        }
        let ghost all = self@.keys();
        let mut result: Option<&K> = None;
        let mut cursor = &self.root;
        loop
            invariant
                all == self@.keys(),
                AVLNode::shape_of(*cursor).ordered(),
                forall|x: K| #[trigger] AVLNode::shape_of(*cursor).keys().contains(x) ==> all.contains(x),
                result is None ==> forall|x: K| #[trigger] all.contains(x) && !(*value).less(x)
                    ==> AVLNode::shape_of(*cursor).keys().contains(x),
                result is Some ==> all.contains(*result->0),
                result is Some ==> !(*value).less(*result->0),
                result is Some ==> forall|x: K| #[trigger] all.contains(x) && !(*value).less(x)
                    && !AVLNode::shape_of(*cursor).keys().contains(x) ==> !(*result->0).less(x),
                result is Some ==> forall|x: K| #[trigger] AVLNode::shape_of(*cursor).keys().contains(x)
                    ==> (*result->0).less(x),
            decreases *cursor,
        {
            match cursor {
                None => {
                    return result;
                },
                Some(n) => {
                    let ghost here = AVLNode::shape_of(*cursor).keys();
                    let ghost ls = AVLNode::shape_of(n.left).keys();
                    let ghost rs = AVLNode::shape_of(n.right).keys();
                    assert(here == ls.union(rs).insert(n.value));
                    assert(here.contains(n.value));
                    assert(forall|x: K| #[trigger] ls.contains(x) ==> here.contains(x) && x.less(n.value));
                    assert(forall|x: K| #[trigger] rs.contains(x) ==> here.contains(x) && n.value.less(x));
                    match n.value.compare(value) {
                        Ordering::Equal => {
                            return Some(&n.value);
                        },
                        Ordering::Greater => {
                            proof {
                                assert forall|x: K| #[trigger] all.contains(x) && !(*value).less(x) && here.contains(x) implies ls.contains(x) by {
                                    if rs.contains(x) {
                                        K::lemma_transitive(*value, n.value, x);
                                    }
                                }
                            }
                            cursor = &n.left;
                        },
                        Ordering::Less => {
                            proof {
                                assert forall|x: K| #[trigger] all.contains(x) && !(*value).less(x) && !rs.contains(x) implies !n.value.less(x) by {
                                    if n.value.less(x) {
                                        if here.contains(x) {
                                            assert(ls.contains(x) || rs.contains(x) || x == n.value);
                                            if ls.contains(x) {
                                                K::lemma_transitive(x, n.value, x);
                                            }
                                            K::lemma_irreflexive(x);
                                        } else if result is Some {
                                            assert((*result->0).less(n.value));
                                            K::lemma_transitive(*result->0, n.value, x);
                                        }
                                    }
                                }
                            }
                            result = Some(&n.value);
                            cursor = &n.right;
                        },
                    }
                },
            }
        }
    }
}

impl<K: OrderedKey> Default for AVLTree<K> {
    /// An empty tree.
    fn default() -> (r: Self)
        ensures
            r.well_formed(),
            r@ == Tree::<K>::Empty,
    {
        Self::new()
    }
}

} // verus!
