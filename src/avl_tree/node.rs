//! The nodes of the AVL tree: a key, two owned child slots and the number of
//! levels of the subtree.
use vstd::prelude::*;

use crate::key::{OrderedKey, lemma_strict_order};
use crate::tree::{
    Tree,
    children_of,
    deref_all,
    deref_pairs,
    is_greatest,
    is_least,
    links_of,
    root_values,
};

verus! {

/// A node of an AVL tree.
pub struct AVLNode<K> {
    pub value: K,
    pub left: Option<Box<AVLNode<K>>>,
    pub right: Option<Box<AVLNode<K>>>,
    /// The number of levels of the subtree rooted here (a leaf has 1).
    pub height: usize,
}

impl<K: OrderedKey> AVLNode<K> {
    /// The model of the subtree held in a child slot.
    pub open spec fn shape_of(t: Option<Box<AVLNode<K>>>) -> Tree<K>
        decreases t,
    {
        match t {
            None => Tree::Empty,
            Some(n) => Tree::Node {
                left: Box::new(Self::shape_of(n.left)),
                value: n.value,
                right: Box::new(Self::shape_of(n.right)),
            },
        }
    }

    /// The model of the subtree rooted at this node.
    pub open spec fn shape(self) -> Tree<K> {
        Self::shape_of(Some(Box::new(self)))
    }

    /// The height stored for a child slot: 0 when it is empty.
    pub open spec fn height_of(t: Option<Box<AVLNode<K>>>) -> nat {
        match t {
            None => 0,
            Some(n) => n.height as nat,
        }
    }

    /// Every stored height is the number of levels of its subtree.
    pub open spec fn heights_ok(t: Option<Box<AVLNode<K>>>) -> bool
        decreases t,
    {
        match t {
            None => true,
            Some(n) => {
                &&& n.height == Self::shape_of(Some(n)).levels()
                &&& Self::heights_ok(n.left)
                &&& Self::heights_ok(n.right)
            },
        }
    }

    /// An AVL subtree: ordered, balanced, with correct heights.
    pub open spec fn valid(t: Option<Box<AVLNode<K>>>) -> bool {
        &&& Self::shape_of(t).ordered()
        &&& Self::shape_of(t).balanced()
        &&& Self::heights_ok(t)
    }

    /// A leaf: no children, height 1.
    pub fn new(value: K) -> (r: Self)
        ensures
            r.value == value,
            r.left is None,
            r.right is None,
            r.height == 1,
    {
        AVLNode { value, left: None, right: None, height: 1 }
    }

    /// The height stored for a child slot (0 when it is empty).
    pub fn height(node: &Option<Box<AVLNode<K>>>) -> (r: usize)
        ensures
            r == Self::height_of(*node),
    {
        match node {
            None => 0,
            Some(n) => n.height,
        }
    }

    /// Sets this node's height to one more than the taller child's.
    pub fn update_height(&mut self)
        requires
            Self::height_of(old(self).left) < usize::MAX,
            Self::height_of(old(self).right) < usize::MAX,
        ensures
            final(self).value == old(self).value,
            final(self).left == old(self).left,
            final(self).right == old(self).right,
            final(self).height == 1 + if Self::height_of(old(self).left) >= Self::height_of(
                old(self).right,
            ) {
                Self::height_of(old(self).left)
            } else {
                Self::height_of(old(self).right)
            },
    {
        let l = Self::height(&self.left);
        let r = Self::height(&self.right);
        self.height = 1 + if l >= r {
            l
        } else {
            r
        };
    }

    /// Left height minus right height.
    pub fn balance_factor(&self) -> (r: i32)
        requires
            Self::height_of(self.left) <= i32::MAX,
            Self::height_of(self.right) <= i32::MAX,
        ensures
            r == Self::height_of(self.left) - Self::height_of(self.right),
    {
        let l = Self::height(&self.left) as i32;
        let r = Self::height(&self.right) as i32;
        l - r
    }
    pub(crate) proof fn lemma_height_of(t: Option<Box<AVLNode<K>>>)
        requires
            Self::heights_ok(t),
        ensures
            Self::height_of(t) == Self::shape_of(t).levels(),
            Self::height_of(t) <= Self::shape_of(t).size(),
    {
        Self::shape_of(t).lemma_levels_le_size();
    }

    /// Right rotation: the left child becomes the root of the subtree and the
    /// old root its right child.
    fn ll_rotation(node: Box<AVLNode<K>>) -> (r: Box<AVLNode<K>>)
        requires
            node.left is Some,
            Self::heights_ok(node.left),
            Self::heights_ok(node.right),
            node.shape().size() <= usize::MAX,
        ensures
            Self::heights_ok(Some(r)),
            ({
                let l = node.left.unwrap();
                r.shape() == Tree::Node {
                    left: Box::new(Self::shape_of(l.left)),
                    value: l.value,
                    right: Box::new(
                        Tree::Node {
                            left: Box::new(Self::shape_of(l.right)),
                            value: node.value,
                            right: Box::new(Self::shape_of(node.right)),
                        },
                    ),
                }
            }),
    {
        let mut node = node;
        let ghost orig = *node;
        let mut new_root = node.left.take().unwrap();
        let ghost a = new_root.left;
        let ghost b = new_root.right;
        let ghost c = node.right;
        proof {
            Self::lemma_height_of(a);
            Self::lemma_height_of(b);
            Self::lemma_height_of(c);
        }
        let ghost total = Self::shape_of(a).size() + Self::shape_of(b).size() + Self::shape_of(c).size() + 2;
        assert(Self::shape_of(orig.left).size() == Self::shape_of(a).size() + Self::shape_of(b).size() + 1);
        assert(orig.shape().size() == total);
        node.left = new_root.right.take();
        node.update_height();
        assert(node.height == Self::shape_of(Some(node)).levels());
        assert(Self::heights_ok(Some(node)));
        new_root.right = Some(node);
        proof {
            Self::shape_of(Some(node)).lemma_levels_le_size();
            assert(Self::shape_of(Some(node)).size() == Self::shape_of(b).size() + Self::shape_of(c).size() + 1);
        }
        new_root.update_height();
        new_root
    }

    /// Left rotation: the right child becomes the root of the subtree and the
    /// old root its left child.
    fn rr_rotation(node: Box<AVLNode<K>>) -> (r: Box<AVLNode<K>>)
        requires
            node.right is Some,
            Self::heights_ok(node.left),
            Self::heights_ok(node.right),
            node.shape().size() <= usize::MAX,
        ensures
            Self::heights_ok(Some(r)),
            ({
                let rt = node.right.unwrap();
                r.shape() == Tree::Node {
                    left: Box::new(
                        Tree::Node {
                            left: Box::new(Self::shape_of(node.left)),
                            value: node.value,
                            right: Box::new(Self::shape_of(rt.left)),
                        },
                    ),
                    value: rt.value,
                    right: Box::new(Self::shape_of(rt.right)),
                }
            }),
    {
        let mut node = node;
        let ghost orig = *node;
        let mut new_root = node.right.take().unwrap();
        let ghost a = node.left;
        let ghost b = new_root.left;
        let ghost c = new_root.right;
        proof {
            Self::lemma_height_of(a);
            Self::lemma_height_of(b);
            Self::lemma_height_of(c);
        }
        let ghost total = Self::shape_of(a).size() + Self::shape_of(b).size() + Self::shape_of(c).size() + 2;
        assert(Self::shape_of(orig.right).size() == Self::shape_of(b).size() + Self::shape_of(c).size() + 1);
        assert(orig.shape().size() == total);
        node.right = new_root.left.take();
        node.update_height();
        assert(node.height == Self::shape_of(Some(node)).levels());
        assert(Self::heights_ok(Some(node)));
        new_root.left = Some(node);
        proof {
            Self::shape_of(Some(node)).lemma_levels_le_size();
            assert(Self::shape_of(Some(node)).size() == Self::shape_of(a).size() + Self::shape_of(b).size() + 1);
        }
        new_root.update_height();
        new_root
    }
    /// Left rotation of the left child, then right rotation of the node.
    fn lr_rotation(node: Box<AVLNode<K>>) -> (r: Box<AVLNode<K>>)
        requires
            node.left is Some,
            node.left.unwrap().right is Some,
            Self::heights_ok(node.left),
            Self::heights_ok(node.right),
            node.shape().size() <= usize::MAX,
        ensures
            Self::heights_ok(Some(r)),
            ({
                let l = node.left.unwrap();
                let m = l.right.unwrap();
                r.shape() == Tree::Node {
                    left: Box::new(
                        Tree::Node {
                            left: Box::new(Self::shape_of(l.left)),
                            value: l.value,
                            right: Box::new(Self::shape_of(m.left)),
                        },
                    ),
                    value: m.value,
                    right: Box::new(
                        Tree::Node {
                            left: Box::new(Self::shape_of(m.right)),
                            value: node.value,
                            right: Box::new(Self::shape_of(node.right)),
                        },
                    ),
                }
            }),
    {
        let mut node = node;
        let ghost orig = *node;
        let l = node.left.take().unwrap();
        let ghost m = l.right.unwrap();
        proof {
            assert(Self::shape_of(l.right).size() == Self::shape_of(m.left).size() + Self::shape_of(m.right).size() + 1);
            assert(Self::shape_of(Some(l)).size() == Self::shape_of(l.left).size() + Self::shape_of(l.right).size() + 1);
            assert(orig.shape().size() == Self::shape_of(Some(l)).size() + Self::shape_of(orig.right).size() + 1);
        }
        let rotated = Self::rr_rotation(l);
        proof {
            Tree::lemma_rotation(Self::shape_of(l.left), l.value, Self::shape_of(m.left), m.value, Self::shape_of(m.right));
        }
        node.left = Some(rotated);
        Self::ll_rotation(node)
    }

    /// Right rotation of the right child, then left rotation of the node.
    fn rl_rotation(node: Box<AVLNode<K>>) -> (r: Box<AVLNode<K>>)
        requires
            node.right is Some,
            node.right.unwrap().left is Some,
            Self::heights_ok(node.left),
            Self::heights_ok(node.right),
            node.shape().size() <= usize::MAX,
        ensures
            Self::heights_ok(Some(r)),
            ({
                let rt = node.right.unwrap();
                let m = rt.left.unwrap();
                r.shape() == Tree::Node {
                    left: Box::new(
                        Tree::Node {
                            left: Box::new(Self::shape_of(node.left)),
                            value: node.value,
                            right: Box::new(Self::shape_of(m.left)),
                        },
                    ),
                    value: m.value,
                    right: Box::new(
                        Tree::Node {
                            left: Box::new(Self::shape_of(m.right)),
                            value: rt.value,
                            right: Box::new(Self::shape_of(rt.right)),
                        },
                    ),
                }
            }),
    {
        let mut node = node;
        let ghost orig = *node;
        let rt = node.right.take().unwrap();
        let ghost m = rt.left.unwrap();
        proof {
            assert(Self::shape_of(rt.left).size() == Self::shape_of(m.left).size() + Self::shape_of(m.right).size() + 1);
            assert(Self::shape_of(Some(rt)).size() == Self::shape_of(rt.left).size() + Self::shape_of(rt.right).size() + 1);
            assert(orig.shape().size() == Self::shape_of(orig.left).size() + Self::shape_of(Some(rt)).size() + 1);
        }
        let rotated = Self::ll_rotation(rt);
        proof {
            Tree::lemma_rotation(Self::shape_of(m.left), m.value, Self::shape_of(m.right), rt.value, Self::shape_of(rt.right));
        }
        node.right = Some(rotated);
        Self::rr_rotation(node)
    }
    /// Repairs a node whose two subtrees are balanced but may differ by two
    /// levels: a single rotation when the taller child leans the same way or
    /// not at all, a double rotation when it leans inwards. A balanced node is
    /// returned as it is.
    pub fn rebalance(self: Box<Self>) -> (r: Box<AVLNode<K>>)
        requires
            Self::heights_ok(Some(self)),
            Self::shape_of(self.left).balanced(),
            Self::shape_of(self.right).balanced(),
            Self::shape_of(self.left).levels() <= Self::shape_of(self.right).levels() + 2,
            Self::shape_of(self.right).levels() <= Self::shape_of(self.left).levels() + 2,
            self.shape().size() <= usize::MAX,
        ensures
            Self::heights_ok(Some(r)),
            r.shape().balanced(),
            r.shape().keys() == self.shape().keys(),
            r.shape().in_order() == self.shape().in_order(),
            r.shape().size() == self.shape().size(),
            r.shape().ordered() == self.shape().ordered(),
            self.shape().balanced() ==> r == self,
            r.shape() == self.shape().avl_rebalance(),
            r.shape().levels() == self.shape().levels() || r.shape().levels() + 1
                == self.shape().levels(),
    {
        let lh = Self::height(&self.left);
        let rh = Self::height(&self.right);
        proof {
            Self::lemma_height_of(self.left);
            Self::lemma_height_of(self.right);
        }
        let ghost c_l = Self::shape_of(self.left);
        let ghost c_r = Self::shape_of(self.right);
        if lh > rh + 1 {
            let leans_right = match &self.left {
                Some(l) => Self::height(&l.left) < Self::height(&l.right),
                None => false,
            };
            assert(self.left is Some);
            assert(Self::heights_ok(self.left));
            let ghost l = self.left.unwrap();
            let ghost a = Self::shape_of(l.left);
            let ghost b = Self::shape_of(l.right);
            proof {
                Self::lemma_height_of(l.left);
                Self::lemma_height_of(l.right);
                assert(c_l == Tree::Node { left: Box::new(a), value: l.value, right: Box::new(b) });
            }
            if !leans_right {
                proof {
                    Tree::lemma_balance_single(a, l.value, b, self.value, c_r);
                    Tree::lemma_rotation(a, l.value, b, self.value, c_r);
                }
                Self::ll_rotation(self)
            } else {
                assert(l.right is Some);
                let ghost m = l.right.unwrap();
                let ghost b1 = Self::shape_of(m.left);
                let ghost b2 = Self::shape_of(m.right);
                proof {
                    assert(b == Tree::Node { left: Box::new(b1), value: m.value, right: Box::new(b2) });
                    assert(b.balanced());
                    let before_l = Tree::Node { left: Box::new(a), value: l.value, right: Box::new(b) };
                    let after_l = Tree::Node {
                        left: Box::new(Tree::Node { left: Box::new(a), value: l.value, right: Box::new(b1) }),
                        value: m.value,
                        right: Box::new(b2),
                    };
                    Tree::lemma_balance_double(a, l.value, b1, m.value, b2, self.value, c_r);
                    Tree::lemma_rotation(a, l.value, b1, m.value, b2);
                    Tree::lemma_same_content(before_l, after_l, self.value, c_r);
                    Tree::lemma_rotation(
                        Tree::Node { left: Box::new(a), value: l.value, right: Box::new(b1) },
                        m.value,
                        b2,
                        self.value,
                        c_r,
                    );
                }
                Self::lr_rotation(self)
            }
        } else if rh > lh + 1 {
            let leans_left = match &self.right {
                Some(rt) => Self::height(&rt.right) < Self::height(&rt.left),
                None => false,
            };
            assert(self.right is Some);
            assert(Self::heights_ok(self.right));
            let ghost rt = self.right.unwrap();
            let ghost b = Self::shape_of(rt.left);
            let ghost c = Self::shape_of(rt.right);
            proof {
                Self::lemma_height_of(rt.left);
                Self::lemma_height_of(rt.right);
                assert(c_r == Tree::Node { left: Box::new(b), value: rt.value, right: Box::new(c) });
            }
            if !leans_left {
                proof {
                    Tree::lemma_balance_single_mirror(c_l, self.value, b, rt.value, c);
                    Tree::lemma_rotation(c_l, self.value, b, rt.value, c);
                }
                Self::rr_rotation(self)
            } else {
                assert(rt.left is Some);
                let ghost m = rt.left.unwrap();
                let ghost b1 = Self::shape_of(m.left);
                let ghost b2 = Self::shape_of(m.right);
                proof {
                    assert(b == Tree::Node { left: Box::new(b1), value: m.value, right: Box::new(b2) });
                    assert(b.balanced());
                    let before_r = Tree::Node { left: Box::new(b), value: rt.value, right: Box::new(c) };
                    let after_r = Tree::Node {
                        left: Box::new(b1),
                        value: m.value,
                        right: Box::new(Tree::Node { left: Box::new(b2), value: rt.value, right: Box::new(c) }),
                    };
                    Tree::lemma_balance_double_mirror(c_l, self.value, b1, m.value, b2, rt.value, c);
                    Tree::lemma_rotation(b1, m.value, b2, rt.value, c);
                    Tree::lemma_same_content(before_r, after_r, self.value, c_l);
                    Tree::lemma_rotation(
                        c_l,
                        self.value,
                        b1,
                        m.value,
                        Tree::Node { left: Box::new(b2), value: rt.value, right: Box::new(c) },
                    );
                }
                Self::rl_rotation(self)
            }
        } else {
            self
        }
    }
    /// What an in-order walk still owes for a stack of nodes whose left
    /// subtrees are done: from the top down, each node and its right subtree.
    pub open spec fn pending_in_order(s: Seq<&Box<AVLNode<K>>>) -> Seq<K>
        decreases s.len(),
    {
        if s.len() == 0 {
            Seq::empty()
        } else {
            seq![s.last().value] + Self::shape_of(s.last().right).in_order()
                + Self::pending_in_order(s.drop_last())
        }
    }

    /// What a pre-order walk still owes for a stack of nodes already listed
    /// with their left subtrees: from the top down, each right subtree.
    pub open spec fn pending_pre_order(s: Seq<&Box<AVLNode<K>>>) -> Seq<K>
        decreases s.len(),
    {
        if s.len() == 0 {
            Seq::empty()
        } else {
            Self::shape_of(s.last().right).pre_order() + Self::pending_pre_order(s.drop_last())
        }
    }

    /// What a post-order walk still owes for a stack of nodes whose left
    /// subtrees are done, each marked when its right subtree is done too.
    pub open spec fn pending_post_order(s: Seq<(&Box<AVLNode<K>>, bool)>) -> Seq<K>
        decreases s.len(),
    {
        if s.len() == 0 {
            Seq::empty()
        } else {
            (if s.last().1 {
                Seq::empty()
            } else {
                Self::shape_of(s.last().0.right).post_order()
            }) + seq![s.last().0.value] + Self::pending_post_order(s.drop_last())
        }
    }

    /// Steps left before a post-order walk ends, besides listing keys.
    pub open spec fn post_order_steps(s: Seq<(&Box<AVLNode<K>>, bool)>) -> nat
        decreases s.len(),
    {
        if s.len() == 0 {
            0
        } else {
            (if s.last().1 {
                0
            } else {
                1 + 2 * Self::shape_of(s.last().0.right).size()
            }) + Self::post_order_steps(s.drop_last())
        }
    }

    /// Appends the keys below `t` in in-order, with an explicit stack.
    pub(crate) fn collect_in_order<'a>(t: &'a Option<Box<AVLNode<K>>>, out: &mut Vec<&'a K>)
        ensures
            deref_all(final(out)@) == deref_all(old(out)@) + Self::shape_of(*t).in_order(),
    {
        let mut stack: Vec<&'a Box<AVLNode<K>>> = Vec::new();
        let mut current = t;
        proof {
            Self::shape_of(*t).lemma_traversals();
        }
        loop
            invariant
                deref_all(out@) + Self::shape_of(*current).in_order() + Self::pending_in_order(
                    stack@,
                ) == deref_all(old(out)@) + Self::shape_of(*t).in_order(),
            ensures
                deref_all(out@) == deref_all(old(out)@) + Self::shape_of(*t).in_order(),
            decreases
                Self::shape_of(*current).in_order().len() + Self::pending_in_order(stack@).len(),
                Self::shape_of(*current).size(),
        {
            let ghost before = deref_all(out@);
            let ghost old_stack = stack@;
            match current {
                Some(node) => {
                    proof {
                        Self::shape_of(node.left).lemma_traversals();
                        Self::shape_of(node.right).lemma_traversals();
                    }
                    stack.push(node);
                    current = &node.left;
                    assert(stack@.drop_last() =~= old_stack);
                },
                None => {
                    match stack.pop() {
                        None => {
                            assert(deref_all(out@) =~= deref_all(old(out)@) + Self::shape_of(*t).in_order());
                            break;
                        },
                        Some(node) => {
                            out.push(&node.value);
                            current = &node.right;
                            assert(deref_all(out@) =~= before.push(node.value));
                        },
                    }
                },
            }
        }
    }

    /// Appends the keys below `t` in pre-order, with an explicit stack.
    pub(crate) fn collect_pre_order<'a>(t: &'a Option<Box<AVLNode<K>>>, out: &mut Vec<&'a K>)
        ensures
            deref_all(final(out)@) == deref_all(old(out)@) + Self::shape_of(*t).pre_order(),
    {
        let mut stack: Vec<&'a Box<AVLNode<K>>> = Vec::new();
        let mut current = t;
        loop
            invariant
                deref_all(out@) + Self::shape_of(*current).pre_order() + Self::pending_pre_order(
                    stack@,
                ) == deref_all(old(out)@) + Self::shape_of(*t).pre_order(),
            ensures
                deref_all(out@) == deref_all(old(out)@) + Self::shape_of(*t).pre_order(),
            decreases
                Self::shape_of(*current).pre_order().len() + Self::pending_pre_order(stack@).len(),
                stack@.len(),
        {
            let ghost before = deref_all(out@);
            let ghost old_stack = stack@;
            match current {
                Some(node) => {
                    out.push(&node.value);
                    stack.push(node);
                    current = &node.left;
                    assert(stack@.drop_last() =~= old_stack);
                    assert(deref_all(out@) =~= before.push(node.value));
                },
                None => {
                    match stack.pop() {
                        None => {
                            assert(deref_all(out@) =~= deref_all(old(out)@) + Self::shape_of(*t).pre_order());
                            break;
                        },
                        Some(node) => {
                            current = &node.right;
                        },
                    }
                },
            }
        }
    }

    /// Appends the keys below `t` in post-order, with an explicit stack whose
    /// entries record whether the right subtree has been walked.
    pub(crate) fn collect_post_order<'a>(t: &'a Option<Box<AVLNode<K>>>, out: &mut Vec<&'a K>)
        ensures
            deref_all(final(out)@) == deref_all(old(out)@) + Self::shape_of(*t).post_order(),
    {
        let mut stack: Vec<(&'a Box<AVLNode<K>>, bool)> = Vec::new();
        let mut current = t;
        loop
            invariant
                deref_all(out@) + Self::shape_of(*current).post_order() + Self::pending_post_order(
                    stack@,
                ) == deref_all(old(out)@) + Self::shape_of(*t).post_order(),
            ensures
                deref_all(out@) == deref_all(old(out)@) + Self::shape_of(*t).post_order(),
            decreases
                Self::shape_of(*current).post_order().len() + Self::pending_post_order(
                    stack@,
                ).len(),
                2 * Self::shape_of(*current).size() + Self::post_order_steps(stack@),
        {
            let ghost before = deref_all(out@);
            let ghost old_stack = stack@;
            match current {
                Some(node) => {
                    proof {
                        Self::shape_of(node.left).lemma_traversals();
                        Self::shape_of(node.right).lemma_traversals();
                    }
                    stack.push((node, false));
                    current = &node.left;
                    assert(stack@.drop_last() =~= old_stack);
                },
                None => {
                    match stack.pop() {
                        None => {
                            assert(deref_all(out@) =~= deref_all(old(out)@) + Self::shape_of(*t).post_order());
                            break;
                        },
                        Some((node, right_done)) => {
                            if right_done {
                                out.push(&node.value);
                                assert(deref_all(out@) =~= before.push(node.value));
                            } else {
                                let ghost popped = stack@;
                                stack.push((node, true));
                                current = &node.right;
                                assert(stack@.drop_last() =~= popped);
                                proof {
                                    Self::shape_of(node.right).lemma_traversals();
                                }
                            }
                        },
                    }
                },
            }
        }
    }

    /// The least key under `n`: the end of the leftmost path.
    pub(crate) fn min_below(n: &AVLNode<K>) -> (r: K)
        requires
            n.shape().ordered(),
        ensures
            is_least(n.shape().keys(), r),
            r == n.shape().leftmost(),
    {
        let mut cur = n;
        loop
            invariant
                n.shape().ordered(),
                cur.shape().leftmost() == n.shape().leftmost(),
            decreases cur.shape().size(),
        {
            match &cur.left {
                None => {
                    assert(cur.shape().leftmost() == cur.value);
                    proof {
                        n.shape().lemma_extremes();
                    }
                    return cur.value;
                },
                Some(l) => {
                    assert(Self::shape_of(cur.left).size() < cur.shape().size());
                    cur = l;
                },
            }
        }
    }

    /// The greatest key under `n`: the end of the rightmost path.
    pub(crate) fn max_below(n: &AVLNode<K>) -> (r: K)
        requires
            n.shape().ordered(),
        ensures
            is_greatest(n.shape().keys(), r),
            r == n.shape().rightmost(),
    {
        let mut cur = n;
        loop
            invariant
                n.shape().ordered(),
                cur.shape().rightmost() == n.shape().rightmost(),
            decreases cur.shape().size(),
        {
            match &cur.right {
                None => {
                    assert(cur.shape().rightmost() == cur.value);
                    proof {
                        n.shape().lemma_extremes();
                    }
                    return cur.value;
                },
                Some(rt) => {
                    assert(Self::shape_of(cur.right).size() < cur.shape().size());
                    cur = rt;
                },
            }
        }
    }

    /// The models of a sequence of subtrees.
    pub open spec fn shapes(v: Seq<&Box<AVLNode<K>>>) -> Seq<Tree<K>> {
        v.map_values(|b: &Box<AVLNode<K>>| Self::shape_of(Some(*b)))
    }

    /// One step of a breadth-first walk: appends the keys of the subtrees of
    /// `level` and the links to their children, and returns those children.
    pub(crate) fn next_level<'a>(
        level: &Vec<&'a Box<AVLNode<K>>>,
        keys: &mut Vec<&'a K>,
        links: &mut Vec<(&'a K, &'a K)>,
    ) -> (r: Vec<&'a Box<AVLNode<K>>>)
        ensures
            Self::shapes(r@) == children_of(Self::shapes(level@)),
            deref_all(final(keys)@) == deref_all(old(keys)@) + root_values(Self::shapes(level@)),
            deref_pairs(final(links)@) == deref_pairs(old(links)@) + links_of(Self::shapes(level@)),
    {
        let ghost all = Self::shapes(level@);
        let mut next: Vec<&'a Box<AVLNode<K>>> = Vec::new();
        let mut i: usize = 0;
        while i < level.len()
            invariant
                0 <= i <= level@.len(),
                all == Self::shapes(level@),
                Self::shapes(next@) == children_of(all.take(i as int)),
                deref_all(keys@) == deref_all(old(keys)@) + root_values(all.take(i as int)),
                deref_pairs(links@) == deref_pairs(old(links)@) + links_of(all.take(i as int)),
            decreases level@.len() - i,
        {
            let n = level[i];
            let ghost before_next = next@;
            let ghost before_keys = keys@;
            let ghost before_links = links@;
            keys.push(&n.value);
            let ghost ls = Self::shape_of(n.left);
            let ghost rs = Self::shape_of(n.right);
            if let Some(l) = &n.left {
                next.push(l);
                links.push((&n.value, &l.value));
            }
            proof {
                assert(Self::shapes(next@) =~= Self::shapes(before_next) + crate::tree::non_empty(ls));
                assert(deref_pairs(links@) =~= deref_pairs(before_links) + crate::tree::non_empty(
                    ls,
                ).map_values(|c: Tree<K>| (n.value, c->value)));
            }
            let ghost mid_next = next@;
            let ghost mid_links = links@;
            if let Some(rt) = &n.right {
                next.push(rt);
                links.push((&n.value, &rt.value));
            }
            proof {
                assert(Self::shapes(next@) =~= Self::shapes(mid_next) + crate::tree::non_empty(rs));
                assert(deref_pairs(links@) =~= deref_pairs(mid_links) + crate::tree::non_empty(
                    rs,
                ).map_values(|c: Tree<K>| (n.value, c->value)));
                let t = all[i as int];
                assert(all.take(i + 1).drop_last() =~= all.take(i as int));
                assert(all.take(i + 1).last() == t);
                assert(t == Self::shape_of(Some(*n)));
                assert(Self::shapes(next@) =~= children_of(all.take(i + 1)));
                assert(deref_pairs(links@) =~= deref_pairs(old(links)@) + links_of(all.take(i + 1)));
                assert(deref_all(keys@) =~= deref_all(before_keys).push(n.value));
                assert(root_values(all.take(i + 1)) =~= root_values(all.take(i as int)).push(t->value));
                assert(deref_all(keys@) =~= deref_all(old(keys)@) + root_values(all.take(i + 1)));
            }
            i = i + 1;
        }
        assert(all.take(level@.len() as int) =~= all);
        next
    }

}

} // verus!
