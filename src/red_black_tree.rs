//! A left-leaning red-black binary search tree with cached extremes.
use core::cmp::Ordering;
use vstd::prelude::*;

pub mod node;

use crate::key::{OrderedKey, lemma_strict_order};
use crate::tree::{
    Tree,
    deref_all,
    deref_pairs,
    greatest_option,
    has_ceiling,
    has_floor,
    is_ceiling,
    is_floor,
    is_greatest,
    is_least,
    least_option,
    strictly_sorted,
    exp2,
    lemma_exp2_grows,
    within,
    deref_option,
};
use node::{Color, RBNode};

verus! {

/// A set of keys kept as a left-leaning red-black tree: a binary search tree
/// whose nodes are red or black, with a black root, no red right child, no red
/// node with a red child, and as many black nodes on every path down. The least
/// and the greatest key are cached beside the root.
pub struct RedBlackTree<K> {
    root: Option<Box<RBNode<K>>>,
    min_value: Option<K>,
    max_value: Option<K>,
}

impl<K: OrderedKey> View for RedBlackTree<K> {
    type V = Tree<K>;

    closed spec fn view(&self) -> Tree<K> {
        RBNode::shape_of(self.root)
    }
}

impl<K: OrderedKey> RedBlackTree<K> {
    /// The search order and the left-leaning red-black rules hold, the caches
    /// hold the extremes, and the number of keys fits in a `usize`.
    pub closed spec fn well_formed(&self) -> bool {
        &&& self@.ordered()
        &&& self.left_leaning_red_black()
        &&& least_option(self@.keys(), self.min_value)
        &&& greatest_option(self@.keys(), self.max_value)
        &&& self@.keys().len() <= usize::MAX
    }

    /// The nodes of the tree, colors included.
    pub closed spec fn nodes(&self) -> Option<Box<RBNode<K>>> {
        self.root
    }

    /// The left-leaning red-black rules: the root is black, no right child is
    /// red, no red node has a red child, and every path down meets as many
    /// black nodes.
    pub closed spec fn left_leaning_red_black(&self) -> bool {
        &&& !RBNode::red(self.root)
        &&& RBNode::leans_left(self.root)
        &&& RBNode::black_balanced(self.root)
    }

    /// A well-formed tree is ordered, follows the red-black rules, and holds
    /// one key per node.
    pub proof fn lemma_well_formed(&self)
        requires
            self.well_formed(),
        ensures
            self@.ordered(),
            self.red_black_rules(),
            self@.keys().len() == self@.size(),
    {
        self@.lemma_size();
        self.lemma_red_black_rules();
    }

    /// The left-leaning shape implies the red-black rules.
    pub proof fn lemma_red_black_rules(&self)
        requires
            self.left_leaning_red_black(),
        ensures
            self.red_black_rules(),
    {
        RBNode::lemma_no_red_red(self.root);
    }

    /// The color rules keep the tree shallow: with `n` keys it has at most
    /// `2*log2(n + 1)` levels, and `height` returns one less.
    pub proof fn lemma_logarithmic_height(&self)
        requires
            self.well_formed(),
        ensures
            exp2(self@.levels()) <= (self@.keys().len() + 1) * (self@.keys().len() + 1),
    {
        RBNode::lemma_levels_bound(self.root);
        self@.lemma_size();
    }

    /// An empty tree.
    pub fn new() -> (r: Self)
        ensures
            r.well_formed(),
            r.red_black_rules(),
            r@ == Tree::<K>::Empty,
    {
        RedBlackTree { root: None, min_value: None, max_value: None }
    }

    /// Whether the tree holds no key.
    pub fn is_empty(&self) -> (r: bool)
        requires
            self.well_formed(),
        ensures
            r == (self@.keys() == Set::<K>::empty()),
    {
        proof {
            if self.root.is_some() {
                assert(self@.keys().contains(self.root.unwrap().value));
            }
        }
        self.root.is_none()
    }

    /// Adds `value` as a red leaf on its search path, restores the left-leaning
    /// shape on the way back up and makes the root black. A key that is already
    /// present leaves the tree as it was. The cached extremes are compared with
    /// the new key.
    pub fn insert(&mut self, value: K)
        requires
            old(self).well_formed(),
            old(self)@.keys().len() < usize::MAX,
        ensures
            final(self).well_formed(),
            final(self).red_black_rules(),
            final(self).nodes() == RBNode::blackened(RBNode::inserted(old(self).nodes(), value)),
            final(self)@.keys() == old(self)@.keys().insert(value),
            old(self)@.keys().contains(value) ==> final(self)@ == old(self)@,
    {
        let ghost keys = self@.keys();
        proof {
            lemma_strict_order::<K>();
            self@.lemma_keys_finite();
        }
        match (self.min_value, self.max_value) {
            (Some(lo), Some(hi)) => {
                if matches!(value.compare(&lo), Ordering::Less) {
                    self.min_value = Some(value);
                }
                if matches!(hi.compare(&value), Ordering::Less) {
                    self.max_value = Some(value);
                }
            },
            _ => {
                self.min_value = Some(value);
                self.max_value = Some(value);
            },
        }
        let root = self.root.take();
        let mut new_root = Self::insert_recursive(root, value);
        let ghost before = new_root;
        if let Some(r) = &mut new_root {
            r.color = Color::Black;
        }
        self.root = new_root;
        proof {
            assert(RBNode::shape_of(new_root) == RBNode::shape_of(before));
        }
        proof {
            let ks = keys.insert(value);
            assert(ks.contains(value));
            if keys == Set::<K>::empty() {
                assert(ks =~= set![value]);
            }
            self.lemma_red_black_rules();
        }
    }

    /// Inserts into the subtree `node` as a red leaf and restores the
    /// left-leaning shape on the way back up.
    fn insert_recursive(node: Option<Box<RBNode<K>>>, value: K) -> (r: Option<Box<RBNode<K>>>)
        requires
            RBNode::shape_of(node).ordered(),
        ensures
            r is Some,
            r == RBNode::inserted(node, value),
            RBNode::shape_of(r).ordered(),
            RBNode::shape_of(r).keys() == RBNode::shape_of(node).keys().insert(value),
            RBNode::llrb(node) ==> {
                &&& RBNode::black_balanced(r)
                &&& RBNode::black_height(r) == RBNode::black_height(node)
                &&& !RBNode::red(node) ==> RBNode::leans_left(r)
                &&& RBNode::red(node) ==> RBNode::red_pair(r)
                &&& RBNode::shape_of(node).keys().contains(value) ==> r == node
            },
        decreases node,
    {
        match node {
            None => Some(Box::new(RBNode::new(value))),
            Some(mut n) => {
                let ghost old_n = *n;
                proof {
                    lemma_strict_order::<K>();
                }
                match value.compare(&n.value) {
                    Ordering::Less => {
                        assert(!RBNode::shape_of(n.right).keys().contains(value));
                        let l = n.left.take();
                        n.left = Self::insert_recursive(l, value);
                        assert(RBNode::shape_of(Some(n)).keys() =~= RBNode::shape_of(node).keys().insert(value));
                    },
                    Ordering::Greater => {
                        assert(!RBNode::shape_of(n.left).keys().contains(value));
                        let rt = n.right.take();
                        n.right = Self::insert_recursive(rt, value);
                        assert(RBNode::shape_of(Some(n)).keys() =~= RBNode::shape_of(node).keys().insert(value));
                    },
                    Ordering::Equal => {
                        assert(RBNode::shape_of(node).keys() =~= RBNode::shape_of(node).keys().insert(value));
                        return Some(n);
                    },
                }
                proof {
                    if RBNode::shape_of(node).keys().contains(value) && RBNode::llrb(node) {
                        assert(n == old_n);
                    }
                }
                Some(Self::balance(n))
            },
        }
    }

    /// The state of a node whose child has just been replaced by an insertion
    /// into a left-leaning red-black subtree.
    spec fn after_insert(node: RBNode<K>) -> bool {
        &&& RBNode::black_balanced(Some(Box::new(node)))
        &&& RBNode::leans_left(node.right)
        &&& RBNode::leans_left(node.left) || (RBNode::red_pair(node.left) && node.color == Color::Black
            && !RBNode::red(node.right))
        &&& node.color == Color::Red ==> !(RBNode::red(node.left) && RBNode::red(node.right))
    }

    /// Restores the left-leaning shape at a node after an insertion below it:
    /// a red right child is rotated to the left, two reds in a row on the left
    /// are rotated to the right, and two red children are split by a color
    /// flip.
    fn balance(node: Box<RBNode<K>>) -> (r: Box<RBNode<K>>)
        ensures
            *r == RBNode::balanced_after_insert(*node),
            r.shape().keys() == node.shape().keys(),
            r.shape().in_order() == node.shape().in_order(),
            r.shape().size() == node.shape().size(),
            r.shape().ordered() == node.shape().ordered(),
            Self::after_insert(*node) ==> {
                &&& RBNode::black_balanced(Some(r))
                &&& RBNode::black_height(Some(r)) == RBNode::black_height(Some(node))
                &&& node.color == Color::Black ==> RBNode::leans_left(Some(r))
                &&& node.color == Color::Red ==> RBNode::red_pair(Some(r))
                &&& RBNode::leans_left(Some(node)) ==> r == node
            },
    {
        let mut node = node;
        let ghost n0 = *node;
        if RBNode::is_red_node(&node.right) && !RBNode::is_red_node(&node.left) {
            node = node.rotate_left();
            proof {
                if Self::after_insert(n0) {
                    let x = n0.right.unwrap();
                    assert(RBNode::leans_left(n0.left));
                    assert(RBNode::leans_left(Some(x)));
                    assert(!RBNode::red(x.left));
                    assert(!RBNode::red(x.right));
                    assert(RBNode::leans_left(node.left));
                    assert(!RBNode::red(node.right));
                    assert(RBNode::leans_left(node.right));
                    assert(!RBNode::red(node.left.unwrap().left));
                }
            }
        }
        let ghost n1 = *node;
        let left_left_red = match &node.left {
            Some(l) => RBNode::is_red_node(&l.left),
            None => false,
        };
        if RBNode::is_red_node(&node.left) && left_left_red {
            proof {
                if Self::after_insert(n0) {
                    assert(n1 == n0);
                    assert(!RBNode::leans_left(n0.left));
                    let l = n0.left.unwrap();
                    assert(RBNode::leans_left(l.left));
                    assert(!RBNode::red(l.right));
                    assert(RBNode::leans_left(l.right));
                }
            }
            node = node.rotate_right();
            proof {
                if Self::after_insert(n0) {
                    assert(node.color == Color::Black);
                    assert(RBNode::red(node.left));
                    assert(RBNode::leans_left(node.left));
                    assert(RBNode::red(node.right));
                    let rt = node.right.unwrap();
                    assert(!RBNode::red(rt.right));
                    assert(!RBNode::red(rt.left));
                    assert(RBNode::leans_left(node.right));
                }
            }
        }
        let ghost n2 = *node;
        if RBNode::is_red_node(&node.left) && RBNode::is_red_node(&node.right) {
            proof {
                if Self::after_insert(n0) {
                    assert(n2.color == Color::Black);
                    assert(RBNode::leans_left(n2.left));
                    assert(RBNode::leans_left(n2.right));
                }
            }
            node.flip_colors();
            proof {
                RBNode::lemma_recolored(n2.left);
                RBNode::lemma_recolored(n2.right);
                assert(node.shape() == n2.shape());
                if Self::after_insert(n0) {
                    assert(RBNode::leans_left(node.left));
                    assert(RBNode::leans_left(node.right));
                    assert(RBNode::black_height(Some(node)) == RBNode::black_height(Some(Box::new(n2))));
                }
            }
        }
        proof {
            if n0.color == Color::Black && Self::after_insert(n0) {
                assert(!RBNode::red(node.right));
                assert(RBNode::leans_left(node.left));
                assert(RBNode::leans_left(node.right));
                assert(node.color == Color::Red ==> !RBNode::red(node.left));
            }
        }
        node
    }

    /// The least key under the root, found at the end of the leftmost path.
    fn refind_min(&self) -> (r: Option<K>)
        requires
            self@.ordered(),
        ensures
            least_option(self@.keys(), r),
    {
        match &self.root {
            None => None,
            Some(n) => Some(RBNode::min_below(n)),
        }
    }

    /// The greatest key under the root, found at the end of the rightmost path.
    fn refind_max(&self) -> (r: Option<K>)
        requires
            self@.ordered(),
        ensures
            greatest_option(self@.keys(), r),
    {
        match &self.root {
            None => None,
            Some(n) => Some(RBNode::max_below(n)),
        }
    }

    /// Removes `value` and restores the left-leaning shape on the way back up;
    /// the root is made black again and the cached extremes are found again.
    pub fn remove(&mut self, value: &K)
        requires
            old(self).well_formed(),
        ensures
            final(self).well_formed(),
            final(self).red_black_rules(),
            final(self).nodes() == RBNode::blackened(RBNode::removed(old(self).nodes(), *value)),
            final(self)@.keys() == old(self)@.keys().remove(*value),
    {
        if self.root.is_none() {
            proof {
                self.lemma_red_black_rules();
            }
            return;
        }
        let root = self.root.take();
        let mut new_root = Self::remove_recursive(root, value);
        let ghost before = new_root;
        if let Some(r) = &mut new_root {
            r.color = Color::Black;
        }
        self.root = new_root;
        proof {
            assert(RBNode::shape_of(new_root) == RBNode::shape_of(before));
            if old(self).left_leaning_red_black() {
                assert(Self::top(old(self).root));
                assert(RBNode::black_balanced(before));
                if let Some(b) = before {
                    assert(RBNode::leans_left_below(*b));
                }
            }
        }
        self.min_value = self.refind_min();
        self.max_value = self.refind_max();
        proof {
            self@.lemma_keys_finite();
            old(self)@.lemma_keys_finite();
            vstd::set_lib::lemma_len_subset(self@.keys(), old(self)@.keys());
            self.lemma_red_black_rules();
        }
    }

    /// Removes `value` from the subtree `node`, moving a red link down the
    /// search path first so that the node taken out is never a lone black one.
    #[verifier::rlimit(100)]
    fn remove_recursive(node: Option<Box<RBNode<K>>>, value: &K) -> (r: Option<Box<RBNode<K>>>)
        requires
            RBNode::shape_of(node).ordered(),
        ensures
            r == RBNode::removed(node, *value),
            RBNode::shape_of(r).ordered(),
            RBNode::shape_of(r).keys() == RBNode::shape_of(node).keys().remove(*value),
            Self::removable(node, *value) || Self::top(node) ==> RBNode::black_balanced(r),
            Self::removable(node, *value) ==> {
                &&& RBNode::colors_ok(r)
                &&& RBNode::black_height(r) == RBNode::black_height(node)
                &&& !RBNode::red(node) ==> !RBNode::red(r)
            },
            Self::top(node) ==> match r {
                None => true,
                Some(n) => RBNode::leans_left_below(*n),
            },
        decreases RBNode::shape_of(node).size(),
    {
        let mut node = match node {
            None => {
                return None;
            },
            Some(n) => n,
        };
        let ghost keys = node.shape().keys();
        let ghost h = *node;
        let ghost pre_r = Self::removable(Some(node), *value);
        let ghost pre_t = Self::top(Some(node));
        proof {
            lemma_strict_order::<K>();
            if pre_r || pre_t {
                assert(RBNode::leans_left(h.left) && RBNode::black_balanced(h.left));
                assert(RBNode::black_balanced(h.right));
                assert(RBNode::black_height(h.left) == RBNode::black_height(h.right));
            }
        }
        match value.compare(&node.value) {
            Ordering::Less => {
                if node.left.is_some() {
                    let left_left_red = match &node.left {
                        Some(l) => RBNode::is_red_node(&l.left),
                        None => false,
                    };
                    if !RBNode::is_red_node(&node.left) && !left_left_red {
                        node = Self::move_red_left(node);
                    }
                    let ghost mid = *node;
                    proof {
                        Self::lemma_child_keys(mid);
                        assert(!RBNode::shape_of(mid.right).keys().contains(*value));
                        if pre_r || pre_t {
                            assert(!Self::leans_right(Some(Box::new(h))) || !pre_r || Self::ready(Some(Box::new(h))));
                            assert(Self::ready(mid.left));
                            assert(Self::fixable(mid));
                        }
                    }
                    let l = node.left.take();
                    node.left = Self::remove_recursive(l, value);
                    assert(node.shape().keys() =~= keys.remove(*value));
                    proof {
                        if pre_r || pre_t {
                            assert(Self::fixable(*node));
                        }
                        if pre_r {
                            assert(node.color == Color::Red ==> !RBNode::red(node.left) && !RBNode::red(node.right));
                            assert(RBNode::black_height(Some(node)) == RBNode::black_height(Some(Box::new(h))));
                        }
                    }
                } else {
                    proof {
                        Self::lemma_child_keys(*node);
                    }
                    assert(keys.remove(*value) =~= keys);
                }
            },
            _ => {
                let ghost n0 = *node;
                if RBNode::is_red_node(&node.left) {
                    node = node.rotate_right();
                    proof {
                        Self::lemma_child_keys(n0);
                        assert(RBNode::shape_of(n0.left).keys().contains(node.value));
                    }
                }
                let ghost n1 = *node;
                proof {
                    if (*value).less(n1.value) {
                        K::lemma_transitive(*value, n1.value, n0.value);
                    }
                }
                proof {
                    Self::lemma_child_keys(n1);
                }
                if matches!(value.compare(&node.value), Ordering::Equal) && node.right.is_none() {
                    assert(RBNode::shape_of(n1.left).keys() =~= keys.remove(*value));
                    // Under the color rules the left slot is empty here too; it is
                    // handed on so that no key could be lost either way.
                    return node.left;
                }
                if node.right.is_some() {
                    let right_left_red = match &node.right {
                        Some(rt) => RBNode::is_red_node(&rt.left),
                        None => false,
                    };
                    if !RBNode::is_red_node(&node.right) && !right_left_red {
                        node = Self::move_red_right(node);
                    }
                    let ghost mid = *node;
                    proof {
                        Self::lemma_child_keys(mid);
                        if (*value).less(mid.value) {
                            K::lemma_transitive(*value, mid.value, n1.value);
                        }
                    }
                    if matches!(value.compare(&node.value), Ordering::Equal) {
                        let min_value = Self::find_min(&node.right);
                        let ghost rs = RBNode::shape_of(mid.right).keys();
                        node.value = min_value;
                        let rt = node.right.take();
                        node.right = Self::remove_min(rt);
                        proof {
                            assert(rs.contains(min_value));
                            assert(node.shape().keys() =~= keys.remove(*value));
                            assert forall|k: K| #[trigger] RBNode::shape_of(node.left).keys().contains(k) implies k.less(min_value) by {
                                K::lemma_transitive(k, *value, min_value);
                            }
                        }
                    } else {
                        assert(!RBNode::shape_of(mid.left).keys().contains(*value));
                        let rt = node.right.take();
                        node.right = Self::remove_recursive(rt, value);
                        assert(node.shape().keys() =~= keys.remove(*value));
                    }
                } else {
                    assert(keys.remove(*value) =~= keys);
                }
            },
        }
        Some(Self::fix_up(node))
    }

    /// A subtree that a removal of `v` may descend into: one that is ready, or
    /// one that leans right while `v` is not below its root.
    spec fn removable(t: Option<Box<RBNode<K>>>, v: K) -> bool {
        Self::ready(t) || (Self::leans_right(t) && !v.less(t->0.value))
    }

    /// A whole tree's root: black and following the color rules.
    spec fn top(t: Option<Box<RBNode<K>>>) -> bool {
        RBNode::colors_ok(t) && !RBNode::red(t)
    }

    /// The keys of a node are its own, those on its left (all smaller) and those
    /// on its right (all larger).
    proof fn lemma_child_keys(n: RBNode<K>)
        requires
            n.shape().ordered(),
        ensures
            n.shape().keys() == RBNode::shape_of(n.left).keys().union(RBNode::shape_of(n.right).keys()).insert(n.value),
            !RBNode::shape_of(n.left).keys().contains(n.value),
            !RBNode::shape_of(n.right).keys().contains(n.value),
            forall|k: K| #[trigger] RBNode::shape_of(n.left).keys().contains(k) ==> k.less(n.value),
            forall|k: K| #[trigger] RBNode::shape_of(n.right).keys().contains(k) ==> n.value.less(k),
            RBNode::shape_of(n.left).ordered(),
            RBNode::shape_of(n.right).ordered(),
            RBNode::shape_of(n.left).size() < n.shape().size(),
            RBNode::shape_of(n.right).size() < n.shape().size(),
    {
        lemma_strict_order::<K>();
    }

    /// The least key below a non-empty slot.
    fn find_min(node: &Option<Box<RBNode<K>>>) -> (r: K)
        requires
            node is Some,
            RBNode::shape_of(*node).ordered(),
        ensures
            is_least(RBNode::shape_of(*node).keys(), r),
            r == RBNode::shape_of(*node).leftmost(),
    {
        let n = node.as_ref().unwrap();
        RBNode::min_below(n)
    }

    /// Removes the least key of the subtree `node`, moving a red link down the
    /// leftmost path first.
    fn remove_min(node: Option<Box<RBNode<K>>>) -> (r: Option<Box<RBNode<K>>>)
        requires
            RBNode::shape_of(node).ordered(),
        ensures
            r == RBNode::removed_min(node),
            RBNode::shape_of(r).ordered(),
            RBNode::shape_of(r).keys().subset_of(RBNode::shape_of(node).keys()),
            forall|m: K| is_least(RBNode::shape_of(node).keys(), m) ==> RBNode::shape_of(r).keys()
                == RBNode::shape_of(node).keys().remove(m),
            node is None ==> r is None,
            Self::ready(node) ==> {
                &&& RBNode::colors_ok(r)
                &&& RBNode::black_height(r) == RBNode::black_height(node)
                &&& !RBNode::red(node) ==> !RBNode::red(r)
            },
        decreases RBNode::shape_of(node).size(),
    {
        let mut node = match node {
            None => {
                return None;
            },
            Some(n) => n,
        };
        let ghost keys = node.shape().keys();
        let ghost n0 = *node;
        let ghost pre = Self::ready(Some(node));
        proof {
            lemma_strict_order::<K>();
            Self::lemma_child_keys(*node);
            if pre {
                assert(RBNode::leans_left(n0.left) && RBNode::leans_left(n0.right));
                assert(RBNode::black_balanced(n0.left) && RBNode::black_balanced(n0.right));
            }
        }
        if node.left.is_none() {
            proof {
                if pre {
                    assert(RBNode::black_height(n0.right) == 0);
                    if let Some(rt) = n0.right {
                        assert(RBNode::black_height(n0.right) >= 1);
                    }
                }
                assert forall|m: K| is_least(keys, m) implies RBNode::shape_of(node.right).keys() == keys.remove(m) by {
                    assert(keys.contains(node.value));
                    if m != node.value {
                        assert(RBNode::shape_of(node.right).keys().contains(m));
                    }
                    assert(RBNode::shape_of(node.right).keys() =~= keys.remove(m));
                }
            }
            // Under the color rules the right slot is empty here too; it is
            // handed on so that no key could be lost either way.
            return node.right;
        }
        let left_left_red = match &node.left {
            Some(l) => RBNode::is_red_node(&l.left),
            None => false,
        };
        if !RBNode::is_red_node(&node.left) && !left_left_red {
            node = Self::move_red_left(node);
        }
        let ghost mid = *node;
        proof {
            Self::lemma_child_keys(mid);
            if pre {
                assert(Self::ready(mid.left));
                assert(Self::fixable(mid));
            }
        }
        let l = node.left.take();
        node.left = Self::remove_min(l);
        proof {
            if pre {
                assert(Self::fixable(*node));
                assert(node.color == Color::Red ==> !RBNode::red(node.left) && !RBNode::red(node.right));
                assert(RBNode::black_height(Some(node)) == RBNode::black_height(Some(Box::new(n0))));
            }
            assert(RBNode::shape_of(Some(node)).keys().subset_of(keys));
            assert forall|m: K| is_least(keys, m) implies #[trigger] RBNode::shape_of(Some(node)).keys() == keys.remove(m) by {
                let lk = RBNode::shape_of(mid.left).keys();
                let lv = mid.left.unwrap().value;
                assert(lk.contains(lv));
                assert(keys.contains(lv));
                if !lk.contains(m) {
                    assert(m.less(lv));
                    K::lemma_transitive(m, lv, mid.value);
                    if RBNode::shape_of(mid.right).keys().contains(m) {
                        K::lemma_transitive(m, mid.value, m);
                    }
                    K::lemma_irreflexive(m);
                    assert(false);
                }
                assert(forall|x: K| #[trigger] lk.contains(x) ==> keys.contains(x));
                assert(is_least(lk, m));
                assert(RBNode::shape_of(Some(node)).keys() =~= keys.remove(m));
            }
        }
        Some(Self::fix_up(node))
    }

    /// A subtree that a removal may descend into: it follows the color rules
    /// and its root or the root's left child is red.
    spec fn ready(t: Option<Box<RBNode<K>>>) -> bool {
        &&& t is Some
        &&& RBNode::colors_ok(t)
        &&& (RBNode::red(t) || RBNode::red(t->0.left))
    }

    /// Pushes a red link to the left: the node and its children swap colors,
    /// and if that leaves two reds in a row on the right they are rotated over
    /// to the left.
    fn move_red_left(node: Box<RBNode<K>>) -> (r: Box<RBNode<K>>)
        requires
            node.left is Some,
        ensures
            *r == RBNode::moved_red_left(*node),
            r.left is Some,
            r.shape().keys() == node.shape().keys(),
            r.shape().in_order() == node.shape().in_order(),
            r.shape().size() == node.shape().size(),
            r.shape().ordered() == node.shape().ordered(),
            node.shape().ordered() ==> r.value == node.value || node.value.less(r.value),
            RBNode::colors_ok(Some(node)) && !RBNode::red(node.left) && !RBNode::red(
                node.left.unwrap().left,
            ) ==> {
                &&& Self::fixable(*r)
                &&& Self::ready(r.left)
                &&& RBNode::black_balanced(Some(r))
                &&& node.color == Color::Red ==> RBNode::black_height(Some(r))
                    == RBNode::black_height(Some(node))
                &&& node.color == Color::Red && r.color == Color::Red ==> !RBNode::red(r.left)
                    && !RBNode::red(r.right)
            },
    {
        let mut node = node;
        let ghost n0 = *node;
        let ghost pre = RBNode::colors_ok(Some(node)) && !RBNode::red(node.left) && !RBNode::red(
            node.left.unwrap().left,
        );
        proof {
            if pre {
                let l = n0.left.unwrap();
                assert(RBNode::black_height(n0.left) >= 1);
                assert(n0.right is Some);
                assert(!RBNode::red(n0.right));
                assert(RBNode::leans_left(n0.left));
                assert(RBNode::leans_left(n0.right));
                assert(n0.left == Some(l));
                assert(!RBNode::red(l.right));
                assert(RBNode::leans_left(l.left) && RBNode::leans_left(l.right));
            }
        }
        node.flip_colors();
        let ghost n1 = *node;
        proof {
            RBNode::lemma_recolored(n0.left);
            RBNode::lemma_recolored(n0.right);
            assert(node.shape() == n0.shape());
        }
        let right_left_red = match &node.right {
            Some(rt) => RBNode::is_red_node(&rt.left),
            None => false,
        };
        if right_left_red {
            let rt = node.right.take().unwrap();
            let ghost old_rt = *rt;
            let rotated = rt.rotate_right();
            let ghost rot = *rotated;
            proof {
                Tree::lemma_same_content(
                    RBNode::shape_of(Some(Box::new(old_rt))),
                    rotated.shape(),
                    n1.value,
                    RBNode::shape_of(n1.left),
                );
                assert(RBNode::shape_of(n1.right) == RBNode::shape_of(Some(Box::new(old_rt))));
            }
            node.right = Some(rotated);
            let ghost n2 = *node;
            assert(node.shape().keys() == n1.shape().keys());
            assert(node.shape().ordered() == n1.shape().ordered());
            node = node.rotate_left();
            proof {
                if n0.shape().ordered() {
                    assert(RBNode::shape_of(n1.right).keys().contains(node.value));
                }
            }
            let ghost n3 = *node;
            node.flip_colors();
            proof {
                RBNode::lemma_recolored(n3.left);
                RBNode::lemma_recolored(n3.right);
                assert(node.shape() == n3.shape());
                if pre {
                    let l = n0.left.unwrap();
                    let rr = n0.right.unwrap();
                    let rl = rr.left.unwrap();
                    assert(n0.left == Some(l));
                    assert(n0.right == Some(rr));
                    assert(RBNode::leans_left(n0.left));
                    assert(RBNode::leans_left(n0.right));
                    assert(RBNode::black_balanced(n0.left));
                    assert(RBNode::black_balanced(n0.right));
                    assert(!RBNode::red(l.right));
                    assert(RBNode::leans_left(l.left) && RBNode::leans_left(l.right));
                    assert(rr.left == Some(rl));
                    assert(RBNode::leans_left(rr.left) && RBNode::leans_left(rr.right));
                    assert(RBNode::black_balanced(rr.left) && RBNode::black_balanced(rr.right));
                    assert(RBNode::red(rr.left));
                    assert(!RBNode::red(rl.left) && !RBNode::red(rl.right));
                    assert(RBNode::leans_left(rl.left) && RBNode::leans_left(rl.right));
                    assert(RBNode::black_balanced(rl.left) && RBNode::black_balanced(rl.right));
                    assert(RBNode::black_height(rr.left) == RBNode::black_height(rl.left));
                    assert(RBNode::black_height(n0.left) == RBNode::black_height(l.left) + 1);
                    assert(RBNode::black_height(n0.right) == RBNode::black_height(rr.left) + 1);
                    assert(RBNode::black_height(rr.left) == RBNode::black_height(rr.right));
                    let nl = node.left.unwrap();
                    let nr = node.right.unwrap();
                    assert(nl.left == RBNode::recolored(n0.left));
                    assert(nl.right == rl.left);
                    assert(nr.left == rl.right);
                    assert(nr.right == rr.right);
                    assert(nl.color == Color::Black);
                    assert(!RBNode::red(l.left));
                    assert(RBNode::leans_left(nl.left));
                    assert(RBNode::black_balanced(nl.left));
                    assert(RBNode::black_height(nl.left) == RBNode::black_height(nl.right));
                    assert(RBNode::leans_left(Some(nl)));
                    assert(RBNode::black_balanced(Some(nl)));
                    assert(node.left == Some(nl));
                    assert(RBNode::colors_ok(node.left));
                    assert(RBNode::colors_ok(node.right));
                    assert(Self::ready(node.left));
                    assert(RBNode::black_balanced(Some(node)));
                }
            }
        } else {
            proof {
                if pre {
                    let l = n0.left.unwrap();
                    assert(n0.left == Some(l));
                    assert(RBNode::leans_left(n0.left));
                    assert(!RBNode::red(l.right));
                    assert(RBNode::leans_left(l.left) && RBNode::leans_left(l.right));
                    assert(node.left == RBNode::recolored(n0.left));
                    assert(RBNode::colors_ok(node.left));
                    assert(RBNode::colors_ok(node.right));
                    assert(Self::ready(node.left));
                    assert(RBNode::black_balanced(Some(node)));
                }
            }
        }
        node
    }

    /// A black node that leans right: its right child is red, its left child
    /// is not, and both subtrees follow the color rules.
    spec fn leans_right(t: Option<Box<RBNode<K>>>) -> bool {
        &&& t is Some
        &&& t->0.color == Color::Black
        &&& !RBNode::red(t->0.left)
        &&& RBNode::red(t->0.right)
        &&& RBNode::colors_ok(t->0.left)
        &&& RBNode::colors_ok(t->0.right)
        &&& RBNode::black_balanced(t)
    }

    /// Pushes a red link to the right: the node and its children swap colors,
    /// and if that leaves two reds in a row on the left they are rotated over
    /// to the right.
    fn move_red_right(node: Box<RBNode<K>>) -> (r: Box<RBNode<K>>)
        ensures
            *r == RBNode::moved_red_right(*node),
            r.right is Some <== node.right is Some,
            r.shape().keys() == node.shape().keys(),
            r.shape().in_order() == node.shape().in_order(),
            r.shape().size() == node.shape().size(),
            r.shape().ordered() == node.shape().ordered(),
            node.shape().ordered() ==> r.value == node.value || r.value.less(node.value),
            RBNode::colors_ok(Some(node)) && !RBNode::red(node.left) && node.right is Some
                && !RBNode::red(node.right) && !RBNode::red(node.right.unwrap().left) ==> {
                &&& RBNode::black_balanced(Some(r))
                &&& RBNode::black_height(r.left) == RBNode::black_height(r.right)
                &&& RBNode::colors_ok(r.left)
                &&& (RBNode::colors_ok(r.right) && RBNode::red(r.right)) || (Self::leans_right(r.right)
                    && r.right.unwrap().value == node.value && (node.shape().ordered() ==> r.value.less(
                    node.value,
                )))
                &&& node.color == Color::Red ==> RBNode::black_height(Some(r))
                    == RBNode::black_height(Some(node))
                &&& node.color == Color::Red && r.color == Color::Red ==> !RBNode::red(r.left)
                    && !RBNode::red(r.right)
            },
    {
        let mut node = node;
        let ghost n0 = *node;
        let ghost pre = RBNode::colors_ok(Some(node)) && !RBNode::red(node.left) && node.right is Some
            && !RBNode::red(node.right) && !RBNode::red(node.right.unwrap().left);
        proof {
            if pre {
                let rr = n0.right.unwrap();
                assert(n0.right == Some(rr));
                assert(RBNode::black_height(n0.right) >= 1);
                assert(n0.left is Some);
                let l = n0.left.unwrap();
                assert(n0.left == Some(l));
                assert(RBNode::leans_left(n0.left) && RBNode::leans_left(n0.right));
                assert(RBNode::black_balanced(n0.left) && RBNode::black_balanced(n0.right));
                assert(!RBNode::red(rr.right));
                assert(!RBNode::red(l.right));
                assert(RBNode::leans_left(l.left) && RBNode::leans_left(l.right));
                assert(RBNode::leans_left(rr.left) && RBNode::leans_left(rr.right));
                assert(RBNode::black_balanced(l.left) && RBNode::black_balanced(l.right));
                assert(RBNode::black_balanced(rr.left) && RBNode::black_balanced(rr.right));
            }
        }
        node.flip_colors();
        proof {
            RBNode::lemma_recolored(n0.left);
            RBNode::lemma_recolored(n0.right);
            assert(node.shape() == n0.shape());
        }
        let left_left_red = match &node.left {
            Some(l) => RBNode::is_red_node(&l.left),
            None => false,
        };
        if left_left_red {
            let ghost n1 = *node;
            node = node.rotate_right();
            proof {
                if n0.shape().ordered() {
                    assert(RBNode::shape_of(n1.left).keys().contains(node.value));
                }
            }
            let ghost n2 = *node;
            node.flip_colors();
            proof {
                RBNode::lemma_recolored(n2.left);
                RBNode::lemma_recolored(n2.right);
                assert(node.shape() == n2.shape());
                if n0.shape().ordered() {
                    assert(RBNode::shape_of(n1.left).keys().contains(node.value));
                    assert(node.value.less(n0.value));
                }
                if pre {
                    let l = n0.left.unwrap();
                    let ll = l.left.unwrap();
                    assert(l.left == Some(ll));
                    assert(!RBNode::red(ll.left) && !RBNode::red(ll.right));
                    assert(RBNode::black_balanced(l.left));
                    assert(node.right.unwrap().value == n0.value);
                    assert(RBNode::colors_ok(node.left));
                    assert(Self::leans_right(node.right));
                    assert(RBNode::black_balanced(Some(node)));
                    assert(RBNode::black_height(node.left) == RBNode::black_height(node.right));
                    if n0.color == Color::Red {
                        assert(RBNode::black_height(Some(node)) == RBNode::black_height(Some(Box::new(n0))));
                        assert(!RBNode::red(node.left) && !RBNode::red(node.right));
                    }
                }
            }
        } else {
            proof {
                if pre {
                    assert(RBNode::colors_ok(node.left));
                    assert(RBNode::colors_ok(node.right));
                    assert(RBNode::red(node.right));
                    assert(RBNode::black_balanced(Some(node)));
                    assert(RBNode::black_height(node.left) == RBNode::black_height(node.right));
                    if n0.color == Color::Red {
                        assert(RBNode::black_height(Some(node)) == RBNode::black_height(Some(Box::new(n0))));
                        assert(node.color == Color::Black);
                    }
                }
            }
        }
        node
    }

    /// A node whose two subtrees follow the color rules with the same black
    /// height; its own color and the colors of its children are free.
    spec fn fixable(n: RBNode<K>) -> bool {
        &&& RBNode::black_height(n.left) == RBNode::black_height(n.right)
        &&& RBNode::colors_ok(n.left)
        &&& RBNode::colors_ok(n.right)
    }

    /// Restores the left-leaning shape on the way back up from a removal: a red
    /// right child is rotated to the left, two reds in a row on the left are
    /// rotated to the right, and two red children are split by a color flip.
    fn fix_up(node: Box<RBNode<K>>) -> (r: Box<RBNode<K>>)
        ensures
            *r == RBNode::fixed_up(*node),
            r.shape().keys() == node.shape().keys(),
            r.shape().in_order() == node.shape().in_order(),
            r.shape().size() == node.shape().size(),
            r.shape().ordered() == node.shape().ordered(),
            Self::fixable(*node) ==> RBNode::black_balanced(Some(r)) && RBNode::leans_left_below(*r),
            Self::fixable(*node) && (node.color == Color::Red ==> !RBNode::red(node.left)
                && !RBNode::red(node.right)) ==> {
                &&& RBNode::leans_left(Some(r))
                &&& RBNode::black_height(Some(r)) == RBNode::black_height(Some(node))
                &&& node.color == Color::Red ==> r == node
                &&& node.color == Color::Black && !(RBNode::red(node.left) && RBNode::red(node.right))
                    ==> r.color == Color::Black
            },
    {
        let mut node = node;
        let ghost n0 = *node;
        if RBNode::is_red_node(&node.right) {
            node = node.rotate_left();
            proof {
                if Self::fixable(n0) {
                    let x = n0.right.unwrap();
                    assert(RBNode::leans_left(Some(x)));
                    assert(!RBNode::red(x.left));
                    assert(!RBNode::red(x.right));
                    assert(RBNode::leans_left(node.right));
                    assert(!RBNode::red(node.right));
                    assert(RBNode::black_balanced(Some(x)));
                    assert(RBNode::leans_left(node.left.unwrap().right));
                    assert(RBNode::leans_left(node.left.unwrap().left));
                }
            }
        }
        let ghost n1 = *node;
        let left_left_red = match &node.left {
            Some(l) => RBNode::is_red_node(&l.left),
            None => false,
        };
        if RBNode::is_red_node(&node.left) && left_left_red {
            proof {
                if Self::fixable(n0) {
                    assert(n1 != n0);
                    assert(RBNode::red(n0.right));
                    assert(RBNode::red(n0.left));
                    let l = n1.left.unwrap();
                    assert(l.left == n0.left);
                    let ll = n0.left.unwrap();
                    assert(!RBNode::red(ll.left));
                    assert(!RBNode::red(ll.right));
                }
            }
            node = node.rotate_right();
            proof {
                if Self::fixable(n0) {
                    assert(RBNode::red(node.left));
                    assert(RBNode::red(node.right));
                    let rt = node.right.unwrap();
                    assert(!RBNode::red(rt.left));
                    assert(!RBNode::red(rt.right));
                }
            }
        }
        let ghost n2 = *node;
        if RBNode::is_red_node(&node.left) && RBNode::is_red_node(&node.right) {
            node.flip_colors();
            proof {
                RBNode::lemma_recolored(n2.left);
                RBNode::lemma_recolored(n2.right);
                assert(node.shape() == n2.shape());
            }
        }
        proof {
            if Self::fixable(n0) {
                assert(RBNode::black_balanced(Some(node)));
                assert(RBNode::leans_left_below(*node));
            }
        }
        node
    }

    /// Whether the subtree `node` is ordered with every key strictly between
    /// the bounds that are given.
    fn check_bst(node: &Option<Box<RBNode<K>>>, min: Option<&K>, max: Option<&K>) -> (r: bool)
        ensures
            r == (RBNode::shape_of(*node).ordered() && within(
                RBNode::shape_of(*node).keys(),
                deref_option(min),
                deref_option(max),
            )),
        decreases *node,
    {
        proof {
            lemma_strict_order::<K>();
        }
        match node {
            None => {
                assert(RBNode::shape_of(*node).keys() =~= Set::empty());
                true
            },
            Some(n) => {
                let ghost ls = RBNode::shape_of(n.left).keys();
                let ghost rs = RBNode::shape_of(n.right).keys();
                let ghost all = RBNode::shape_of(*node).keys();
                assert(all == ls.union(rs).insert(n.value));
                assert(all.contains(n.value));
                if let Some(lo) = min {
                    if !matches!(lo.compare(&n.value), Ordering::Less) {
                        return false;
                    }
                }
                if let Some(hi) = max {
                    if !matches!(n.value.compare(hi), Ordering::Less) {
                        return false;
                    }
                }
                let left_ok = Self::check_bst(&n.left, min, Some(&n.value));
                if !left_ok {
                    proof {
                        if RBNode::shape_of(*node).ordered() && within(all, deref_option(min), deref_option(max)) {
                            assert forall|k: K| #[trigger] ls.contains(k) implies (deref_option(min) is Some
                                ==> deref_option(min)->0.less(k)) && k.less(n.value) by {
                                assert(all.contains(k));
                            }
                            assert(within(ls, deref_option(min), Some(n.value)));
                        }
                    }
                    return false;
                }
                let right_ok = Self::check_bst(&n.right, Some(&n.value), max);
                proof {
                    if !right_ok {
                        if RBNode::shape_of(*node).ordered() && within(all, deref_option(min), deref_option(max)) {
                            assert forall|k: K| #[trigger] rs.contains(k) implies n.value.less(k) && (
                            deref_option(max) is Some ==> k.less(deref_option(max)->0)) by {
                                assert(all.contains(k));
                            }
                            assert(within(rs, Some(n.value), deref_option(max)));
                        }
                    }
                    if right_ok {
                        assert forall|k: K| #[trigger] all.contains(k) implies (deref_option(min) is Some
                            ==> deref_option(min)->0.less(k)) && (deref_option(max) is Some ==> k.less(
                            deref_option(max)->0,
                        )) by {
                            if ls.contains(k) && deref_option(max) is Some {
                                K::lemma_transitive(k, n.value, deref_option(max)->0);
                            }
                            if rs.contains(k) && deref_option(min) is Some {
                                K::lemma_transitive(deref_option(min)->0, n.value, k);
                            }
                        }
                    }
                }
                right_ok
            },
        }
    }

    /// Whether the search order holds at every node.
    pub fn is_valid_bst(&self) -> (r: bool)
        ensures
            r == self@.ordered(),
    {
        Self::check_bst(&self.root, None, None)
    }

    /// Whether no red node below the slot has a red child.
    fn check_red_property(&self, node: &Option<Box<RBNode<K>>>) -> (r: bool)
        ensures
            r == RBNode::no_red_red(*node),
        decreases *node,
    {
        match node {
            None => true,
            Some(n) => {
                if n.is_red() {
                    if RBNode::is_red_node(&n.left) || RBNode::is_red_node(&n.right) {
                        return false;
                    }
                }
                self.check_red_property(&n.left) && self.check_red_property(&n.right)
            },
        }
    }

    /// When every path down from the slot meets as many black nodes, that
    /// number counting the empty slot at its end as one more black node; none
    /// otherwise.
    fn check_black_height(&self, node: &Option<Box<RBNode<K>>>) -> (r: Option<usize>)
        requires
            RBNode::shape_of(*node).size() <= usize::MAX,
        ensures
            r is Some <==> RBNode::black_balanced(*node),
            r is Some ==> r->0 == RBNode::black_height(*node) + 1,
        decreases *node,
    {
        match node {
            None => {
                assert(RBNode::<K>::black_height(None) == 0);
                assert(RBNode::<K>::black_balanced(None));
                Some(1)
            },
            Some(n) => {
                let left_height = match self.check_black_height(&n.left) {
                    Some(h) => h,
                    None => {
                        return None;
                    },
                };
                let right_height = match self.check_black_height(&n.right) {
                    Some(h) => h,
                    None => {
                        return None;
                    },
                };
                if left_height != right_height {
                    return None;
                }
                proof {
                    assert(RBNode::black_balanced(*node));
                    RBNode::lemma_black_height_size(*node);
                    let b = RBNode::black_height(*node);
                    if b >= 2 {
                        lemma_exp2_grows(b);
                    }
                }
                if n.is_black() {
                    Some(left_height + 1)
                } else {
                    Some(left_height)
                }
            },
        }
    }

    /// The red-black rules: the root is black, no red node has a red child,
    /// and every path down meets as many black nodes.
    pub closed spec fn red_black_rules(&self) -> bool {
        &&& !RBNode::red(self.root)
        &&& RBNode::no_red_red(self.root)
        &&& RBNode::black_balanced(self.root)
    }

    /// Whether the red-black rules hold; any tree that fits in memory can be
    /// checked.
    pub fn is_valid_red_black_tree(&self) -> (r: bool)
        requires
            self@.size() <= usize::MAX,
        ensures
            r == self.red_black_rules(),
    {
        if let Some(root) = &self.root {
            if root.is_red() {
                return false;
            }
        }
        self.check_red_property(&self.root) && self.check_black_height(&self.root).is_some()
    }

    /// Whether `value` is in the tree.
    pub fn contains(&self, value: &K) -> (r: bool)
        requires
            self.well_formed(),
        ensures
            r == self@.keys().contains(*value),
    {
        proof {
            lemma_strict_order::<K>();
        }
        let mut cursor = &self.root;
        loop
            invariant
                RBNode::shape_of(*cursor).ordered(),
                self@.keys().contains(*value) == RBNode::shape_of(*cursor).keys().contains(
                    *value,
                ),
            decreases *cursor,
        {
            match cursor {
                None => {
                    return false;
                },
                Some(n) => {
                    match value.compare(&n.value) {
                        Ordering::Less => {
                            assert(!RBNode::shape_of(n.right).keys().contains(*value));
                            cursor = &n.left;
                        },
                        Ordering::Greater => {
                            assert(!RBNode::shape_of(n.left).keys().contains(*value));
                            cursor = &n.right;
                        },
                        Ordering::Equal => {
                            return true;
                        },
                    }
                },
            }
        }
    }

    /// The least key, or none for an empty tree.
    pub fn min(&self) -> (r: Option<&K>)
        requires
            self.well_formed(),
        ensures
            match r {
                None => self@.keys() == Set::<K>::empty(),
                Some(m) => is_least(self@.keys(), *m),
            },
    {
        match &self.min_value {
            None => None,
            Some(m) => Some(m),
        }
    }

    /// The greatest key, or none for an empty tree.
    pub fn max(&self) -> (r: Option<&K>)
        requires
            self.well_formed(),
        ensures
            match r {
                None => self@.keys() == Set::<K>::empty(),
                Some(m) => is_greatest(self@.keys(), *m),
            },
    {
        match &self.max_value {
            None => None,
            Some(m) => Some(m),
        }
    }
    /// Runs the breadth-first walk to its end: the keys level by level, the
    /// parent-child links in the same order, and the number of levels.
    fn walk_levels(&self) -> (r: (Vec<&K>, Vec<(&K, &K)>, usize))
        requires
            self.well_formed(),
        ensures
            deref_all(r.0@) == self@.level_order(),
            deref_pairs(r.1@) == self@.connections(),
            r.2 == self@.levels(),
    {
        let mut keys: Vec<&K> = Vec::new();
        let mut links: Vec<(&K, &K)> = Vec::new();
        let mut level: Vec<&Box<RBNode<K>>> = Vec::new();
        if let Some(root) = &self.root {
            level.push(root);
        }
        let mut depth: usize = 0;
        proof {
            assert(RBNode::shapes(level@) =~= self@.subtrees_at(0));
            self@.lemma_levels_le_size();
            self@.lemma_size();
            assert(deref_all(keys@) =~= self@.first_levels(0));
            assert(deref_pairs(links@) =~= self@.first_links(0));
        }
        while level.len() > 0
            invariant
                RBNode::shapes(level@) == self@.subtrees_at(depth as nat),
                deref_all(keys@) == self@.first_levels(depth as nat),
                deref_pairs(links@) == self@.first_links(depth as nat),
                depth <= self@.levels(),
                self@.levels() <= usize::MAX,
            decreases self@.levels() - depth,
        {
            proof {
                self@.lemma_subtrees_at(depth as nat);
            }
            level = RBNode::next_level(&level, &mut keys, &mut links);
            depth = depth + 1;
        }
        proof {
            self@.lemma_subtrees_at(depth as nat);
        }
        (keys, links, depth)
    }

    /// The number of edges on a longest path down from the root; 0 for an
    /// empty tree and for a single node.
    pub fn height(&self) -> (r: usize)
        requires
            self.well_formed(),
        ensures
            r == self@.height(),
    {
        let (_, _, levels) = self.walk_levels();
        if levels == 0 {
            0
        } else {
            levels - 1
        }
    }

    /// The keys in pre-order: node, left subtree, right subtree.
    pub fn pre_order(&self) -> (r: Vec<&K>)
        requires
            self.well_formed(),
        ensures
            deref_all(r@) == self@.pre_order(),
    {
        let mut out: Vec<&K> = Vec::new();
        RBNode::collect_pre_order(&self.root, &mut out);
        assert(deref_all(out@) =~= self@.pre_order());
        out
    }

    /// The keys in in-order: strictly increasing, each key once.
    pub fn in_order(&self) -> (r: Vec<&K>)
        requires
            self.well_formed(),
        ensures
            deref_all(r@) == self@.in_order(),
            strictly_sorted(deref_all(r@)),
            forall|k: K| #[trigger] deref_all(r@).contains(k) <==> self@.keys().contains(k),
    {
        let mut out: Vec<&K> = Vec::new();
        RBNode::collect_in_order(&self.root, &mut out);
        assert(deref_all(out@) =~= self@.in_order());
        proof {
            self@.lemma_in_order_sorted();
            self@.lemma_traversals();
        }
        out
    }

    /// The keys in post-order: left subtree, right subtree, node.
    pub fn post_order(&self) -> (r: Vec<&K>)
        requires
            self.well_formed(),
        ensures
            deref_all(r@) == self@.post_order(),
    {
        let mut out: Vec<&K> = Vec::new();
        RBNode::collect_post_order(&self.root, &mut out);
        assert(deref_all(out@) =~= self@.post_order());
        out
    }

    /// The keys in breadth-first order: level by level, each from left to right.
    pub fn level_order(&self) -> (r: Vec<&K>)
        requires
            self.well_formed(),
        ensures
            deref_all(r@) == self@.level_order(),
    {
        let (keys, _, _) = self.walk_levels();
        keys
    }

    /// The number of keys in the tree.
    pub fn number_of_elements(&self) -> (r: usize)
        requires
            self.well_formed(),
        ensures
            r == self@.keys().len(),
    {
        let all = self.pre_order();
        proof {
            self@.lemma_traversals();
            self@.lemma_size();
        }
        all.len()
    }

    /// Every parent-child link as a pair of keys, in breadth-first order of the
    /// parents, the left child's link first.
    pub fn find_connections(&self) -> (r: Vec<(&K, &K)>)
        requires
            self.well_formed(),
        ensures
            deref_pairs(r@) == self@.connections(),
    {
        let (_, links, _) = self.walk_levels();
        links
    }

    /// The least key at or above `value`, or none if every key is below it.
    pub fn ceil(&self, value: &K) -> (r: Option<&K>)
        requires
            self.well_formed(),
        ensures
            match r {
                None => !has_ceiling(self@.keys(), *value),
                Some(c) => is_ceiling(self@.keys(), *value, *c),
            },
    {
        proof {
            lemma_strict_order::<K>();
        }
        let ghost all = self@.keys();
        let mut result: Option<&K> = None;
        let mut cursor = &self.root;
        loop
            invariant
                all == self@.keys(),
                RBNode::shape_of(*cursor).ordered(),
                forall|x: K| #[trigger] RBNode::shape_of(*cursor).keys().contains(x) ==> all.contains(x),
                result is None ==> forall|x: K| #[trigger] all.contains(x) && !x.less(*value)
                    ==> RBNode::shape_of(*cursor).keys().contains(x),
                result is Some ==> all.contains(*result->0),
                result is Some ==> !(*result->0).less(*value),
                result is Some ==> forall|x: K| #[trigger] all.contains(x) && !x.less(*value)
                    && !RBNode::shape_of(*cursor).keys().contains(x) ==> !x.less(*result->0),
                result is Some ==> forall|x: K| #[trigger] RBNode::shape_of(*cursor).keys().contains(x)
                    ==> x.less(*result->0),
            decreases *cursor,
        {
            match cursor {
                None => {
                    return result;
                },
                Some(n) => {
                    let ghost here = RBNode::shape_of(*cursor).keys();
                    let ghost ls = RBNode::shape_of(n.left).keys();
                    let ghost rs = RBNode::shape_of(n.right).keys();
                    assert(here == ls.union(rs).insert(n.value));
                    assert(here.contains(n.value));
                    assert(forall|x: K| #[trigger] ls.contains(x) ==> here.contains(x) && x.less(n.value));
                    assert(forall|x: K| #[trigger] rs.contains(x) ==> here.contains(x) && n.value.less(x));
                    match n.value.compare(value) {
                        Ordering::Equal => {
                            return Some(&n.value);
                        },
                        Ordering::Less => {
                            proof {
                                assert forall|x: K| #[trigger] all.contains(x) && !x.less(*value) && here.contains(x) implies rs.contains(x) by {
                                    if ls.contains(x) {
                                        K::lemma_transitive(x, n.value, *value);
                                    }
                                }
                            }
                            cursor = &n.right;
                        },
                        Ordering::Greater => {
                            proof {
                                assert forall|x: K| #[trigger] all.contains(x) && !x.less(*value) && !ls.contains(x) implies !x.less(n.value) by {
                                    if x.less(n.value) {
                                        if here.contains(x) {
                                            assert(ls.contains(x) || rs.contains(x) || x == n.value);
                                            if rs.contains(x) {
                                                K::lemma_transitive(x, n.value, x);
                                            }
                                            K::lemma_irreflexive(x);
                                        } else if result is Some {
                                            assert(n.value.less(*result->0));
                                            K::lemma_transitive(x, n.value, *result->0);
                                        }
                                    }
                                }
                            }
                            result = Some(&n.value);
                            cursor = &n.left;
                        },
                    }
                },
            }
        }
    }

    /// The greatest key at or below `value`, or none if every key is above it.
    pub fn floor(&self, value: &K) -> (r: Option<&K>)
        requires
            self.well_formed(),
        ensures
            match r {
                None => !has_floor(self@.keys(), *value),
                Some(f) => is_floor(self@.keys(), *value, *f),
            },
    {
        proof {
            lemma_strict_order::<K>();
        }
        let ghost all = self@.keys();
        let mut result: Option<&K> = None;
        let mut cursor = &self.root;
        loop
            invariant
                all == self@.keys(),
                RBNode::shape_of(*cursor).ordered(),
                forall|x: K| #[trigger] RBNode::shape_of(*cursor).keys().contains(x) ==> all.contains(x),
                result is None ==> forall|x: K| #[trigger] all.contains(x) && !(*value).less(x)
                    ==> RBNode::shape_of(*cursor).keys().contains(x),
                result is Some ==> all.contains(*result->0),
                result is Some ==> !(*value).less(*result->0),
                result is Some ==> forall|x: K| #[trigger] all.contains(x) && !(*value).less(x)
                    && !RBNode::shape_of(*cursor).keys().contains(x) ==> !(*result->0).less(x),
                result is Some ==> forall|x: K| #[trigger] RBNode::shape_of(*cursor).keys().contains(x)
                    ==> (*result->0).less(x),
            decreases *cursor,
        {
            match cursor {
                None => {
                    return result;
                },
                Some(n) => {
                    let ghost here = RBNode::shape_of(*cursor).keys();
                    let ghost ls = RBNode::shape_of(n.left).keys();
                    let ghost rs = RBNode::shape_of(n.right).keys();
                    assert(here == ls.union(rs).insert(n.value));
                    assert(here.contains(n.value));
                    assert(forall|x: K| #[trigger] ls.contains(x) ==> here.contains(x) && x.less(n.value));
                    assert(forall|x: K| #[trigger] rs.contains(x) ==> here.contains(x) && n.value.less(x));
                    match n.value.compare(value) {
                        Ordering::Equal => {
                            return Some(&n.value);
                        },
                        Ordering::Greater => {
                            proof {
                                assert forall|x: K| #[trigger] all.contains(x) && !(*value).less(x) && here.contains(x) implies ls.contains(x) by {
                                    if rs.contains(x) {
                                        K::lemma_transitive(*value, n.value, x);
                                    }
                                }
                            }
                            cursor = &n.left;
                        },
                        Ordering::Less => {
                            proof {
                                assert forall|x: K| #[trigger] all.contains(x) && !(*value).less(x) && !rs.contains(x) implies !n.value.less(x) by {
                                    if n.value.less(x) {
                                        if here.contains(x) {
                                            assert(ls.contains(x) || rs.contains(x) || x == n.value);
                                            if ls.contains(x) {
                                                K::lemma_transitive(x, n.value, x);
                                            }
                                            K::lemma_irreflexive(x);
                                        } else if result is Some {
                                            assert((*result->0).less(n.value));
                                            K::lemma_transitive(*result->0, n.value, x);
                                        }
                                    }
                                }
                            }
                            result = Some(&n.value);
                            cursor = &n.right;
                        },
                    }
                },
            }
        }
    }
}

impl<K: OrderedKey> Default for RedBlackTree<K> {
    /// An empty tree.
    fn default() -> (r: Self)
        ensures
            r.well_formed(),
            r@ == Tree::<K>::Empty,
    {
        Self::new()
    }
}

} // verus!
