//! The nodes of the left-leaning red-black tree: a key, two owned child slots
//! and a color.
use vstd::prelude::*;

use crate::key::{OrderedKey, lemma_strict_order};
use crate::tree::{
    Tree,
    exp2,
    lemma_exp2_add,
    lemma_exp2_monotonic,
    children_of,
    deref_all,
    deref_pairs,
    is_greatest,
    is_least,
    links_of,
    root_values,
};

verus! {

/// The color of a red-black node.
#[derive(Debug, Clone, Copy, PartialEq, Eq, Structural)]
pub enum Color {
    Red,
    Black,
}

/// The other color.
pub open spec fn other(c: Color) -> Color {
    match c {
        Color::Red => Color::Black,
        Color::Black => Color::Red,
    }
}

/// A node of a red-black tree.
pub struct RBNode<K> {
    pub value: K,
    pub left: Option<Box<RBNode<K>>>,
    pub right: Option<Box<RBNode<K>>>,
    pub color: Color,
}

impl<K: OrderedKey> RBNode<K> {
    /// The model of the subtree held in a child slot.
    pub open spec fn shape_of(t: Option<Box<RBNode<K>>>) -> Tree<K>
        decreases t,
    {
        match t {
            None => Tree::Empty,
            Some(n) => Tree::Node {
                left: Box::new(Self::shape_of(n.left)),
                value: n.value,
                right: Box::new(Self::shape_of(n.right)),
            },
        }
    }

    /// The model of the subtree rooted at this node.
    pub open spec fn shape(self) -> Tree<K> {
        Self::shape_of(Some(Box::new(self)))
    }

    /// A child slot holds a red node; an empty slot counts as black.
    pub open spec fn red(t: Option<Box<RBNode<K>>>) -> bool {
        match t {
            None => false,
            Some(n) => n.color == Color::Red,
        }
    }

    /// The number of black nodes on the leftmost path down from the slot.
    pub open spec fn black_height(t: Option<Box<RBNode<K>>>) -> nat
        decreases t,
    {
        match t {
            None => 0,
            Some(n) => Self::black_height(n.left) + if n.color == Color::Black {
                1nat
            } else {
                0nat
            },
        }
    }

    /// Every path down from the slot meets the same number of black nodes.
    pub open spec fn black_balanced(t: Option<Box<RBNode<K>>>) -> bool
        decreases t,
    {
        match t {
            None => true,
            Some(n) => {
                &&& Self::black_height(n.left) == Self::black_height(n.right)
                &&& Self::black_balanced(n.left)
                &&& Self::black_balanced(n.right)
            },
        }
    }

    /// No red node has a red child.
    pub open spec fn no_red_red(t: Option<Box<RBNode<K>>>) -> bool
        decreases t,
    {
        match t {
            None => true,
            Some(n) => {
                &&& (n.color == Color::Red ==> !Self::red(n.left) && !Self::red(n.right))
                &&& Self::no_red_red(n.left)
                &&& Self::no_red_red(n.right)
            },
        }
    }

    /// The left-leaning shape: no right child is red, and no red node has a
    /// red left child.
    pub open spec fn leans_left(t: Option<Box<RBNode<K>>>) -> bool
        decreases t,
    {
        match t {
            None => true,
            Some(n) => {
                &&& !Self::red(n.right)
                &&& (n.color == Color::Red ==> !Self::red(n.left))
                &&& Self::leans_left(n.left)
                &&& Self::leans_left(n.right)
            },
        }
    }

    /// A red node whose right child is not red and whose subtrees lean left:
    /// its left child may be red too, a pair of reds still to be split.
    pub open spec fn red_pair(t: Option<Box<RBNode<K>>>) -> bool {
        match t {
            None => false,
            Some(n) => {
                &&& n.color == Color::Red
                &&& !Self::red(n.right)
                &&& Self::leans_left(n.left)
                &&& Self::leans_left(n.right)
            },
        }
    }

    /// The color rules of a left-leaning subtree, order aside.
    pub open spec fn colors_ok(t: Option<Box<RBNode<K>>>) -> bool {
        &&& Self::leans_left(t)
        &&& Self::black_balanced(t)
    }

    /// The node would lean left if it were black: no red right child, and
    /// both subtrees lean left.
    pub open spec fn leans_left_below(n: RBNode<K>) -> bool {
        &&& !Self::red(n.right)
        &&& Self::leans_left(n.left)
        &&& Self::leans_left(n.right)
    }

    /// A left-leaning red-black subtree (its root may be red).
    pub open spec fn llrb(t: Option<Box<RBNode<K>>>) -> bool {
        &&& Self::shape_of(t).ordered()
        &&& Self::leans_left(t)
        &&& Self::black_balanced(t)
    }

    /// The slot with the color of its node switched.
    pub open spec fn recolored(t: Option<Box<RBNode<K>>>) -> Option<Box<RBNode<K>>> {
        match t {
            None => None,
            Some(n) => Some(
                Box::new(RBNode { value: n.value, left: n.left, right: n.right, color: other(n.color) }),
            ),
        }
    }

    pub proof fn lemma_recolored(t: Option<Box<RBNode<K>>>)
        ensures
            Self::shape_of(Self::recolored(t)) == Self::shape_of(t),
            Self::black_balanced(Self::recolored(t)) == Self::black_balanced(t),
            Self::red(t) && Self::leans_left(t) ==> Self::leans_left(Self::recolored(t)),
            Self::red(t) ==> Self::black_height(Self::recolored(t)) == Self::black_height(t) + 1,
            Self::red(t) ==> !Self::red(Self::recolored(t)),
    {
    }

    pub proof fn lemma_black_height_le_size(t: Option<Box<RBNode<K>>>)
        ensures
            Self::black_height(t) <= Self::shape_of(t).size(),
        decreases t,
    {
        if let Some(n) = t {
            Self::lemma_black_height_le_size(n.left);
        }
    }

    /// The left-leaning shape rules out a red node with a red child.
    pub proof fn lemma_no_red_red(t: Option<Box<RBNode<K>>>)
        requires
            Self::leans_left(t),
        ensures
            Self::no_red_red(t),
        decreases t,
    {
        if let Some(n) = t {
            Self::lemma_no_red_red(n.left);
            Self::lemma_no_red_red(n.right);
        }
    }

    /// A black-balanced subtree holds at least `2^bh - 1` nodes.
    pub proof fn lemma_black_height_size(t: Option<Box<RBNode<K>>>)
        requires
            Self::black_balanced(t),
        ensures
            exp2(Self::black_height(t)) <= Self::shape_of(t).size() + 1,
        decreases t,
    {
        match t {
            None => {
                assert(exp2(0) == 1);
            },
            Some(n) => {
                Self::lemma_black_height_size(n.left);
                Self::lemma_black_height_size(n.right);
                let b = Self::black_height(n.left);
                assert(exp2(b + 1) == 2 * exp2(b));
                lemma_exp2_monotonic(Self::black_height(t), b + 1);
            },
        }
    }

    /// In a left-leaning subtree no path holds two reds in a row, so the
    /// levels are at most twice the black height, plus one for a red root.
    pub proof fn lemma_levels_black_height(t: Option<Box<RBNode<K>>>)
        requires
            Self::leans_left(t),
            Self::black_balanced(t),
        ensures
            Self::shape_of(t).levels() <= 2 * Self::black_height(t) + if Self::red(t) {
                1nat
            } else {
                0nat
            },
        decreases t,
    {
        if let Some(n) = t {
            Self::lemma_levels_black_height(n.left);
            Self::lemma_levels_black_height(n.right);
        }
    }

    /// A left-leaning red-black tree with a black root and `n` nodes has at
    /// most `2*log2(n + 1)` levels: `2^levels <= (n + 1)^2`.
    pub proof fn lemma_levels_bound(t: Option<Box<RBNode<K>>>)
        requires
            Self::leans_left(t),
            Self::black_balanced(t),
            !Self::red(t),
        ensures
            exp2(Self::shape_of(t).levels()) <= (Self::shape_of(t).size() + 1) * (
            Self::shape_of(t).size() + 1),
    {
        let b = Self::black_height(t);
        let n1 = Self::shape_of(t).size() + 1;
        Self::lemma_levels_black_height(t);
        Self::lemma_black_height_size(t);
        lemma_exp2_monotonic(Self::shape_of(t).levels(), b + b);
        lemma_exp2_add(b, b);
        let e = exp2(b);
        assert(e * e <= n1 * n1) by (nonlinear_arith)
            requires
                e <= n1,
                0 <= e,
        ;
    }

    /// The node after `rotate_left`.
    pub open spec fn rotated_left(n: RBNode<K>) -> RBNode<K> {
        let x = n.right->0;
        RBNode {
            value: x.value,
            left: Some(Box::new(RBNode { value: n.value, left: n.left, right: x.left, color: Color::Red })),
            right: x.right,
            color: n.color,
        }
    }

    /// The node after `rotate_right`.
    pub open spec fn rotated_right(n: RBNode<K>) -> RBNode<K> {
        let x = n.left->0;
        RBNode {
            value: x.value,
            left: x.left,
            right: Some(Box::new(RBNode { value: n.value, left: x.right, right: n.right, color: Color::Red })),
            color: n.color,
        }
    }

    /// The node after `flip_colors`.
    pub open spec fn flipped(n: RBNode<K>) -> RBNode<K> {
        RBNode {
            value: n.value,
            left: Self::recolored(n.left),
            right: Self::recolored(n.right),
            color: other(n.color),
        }
    }

    /// The node with its left slot replaced.
    pub open spec fn with_left(n: RBNode<K>, t: Option<Box<RBNode<K>>>) -> RBNode<K> {
        RBNode { value: n.value, left: t, right: n.right, color: n.color }
    }

    /// The node with its right slot replaced.
    pub open spec fn with_right(n: RBNode<K>, t: Option<Box<RBNode<K>>>) -> RBNode<K> {
        RBNode { value: n.value, left: n.left, right: t, color: n.color }
    }

    /// The repair after an insertion below a node: a red right child beside a
    /// left child that is not red is rotated left, two reds in a row on the
    /// left are rotated right, and two red children are split by a flip.
    pub open spec fn balanced_after_insert(n: RBNode<K>) -> RBNode<K> {
        let n1 = if Self::red(n.right) && !Self::red(n.left) {
            Self::rotated_left(n)
        } else {
            n
        };
        let n2 = if Self::red(n1.left) && Self::red(n1.left->0.left) {
            Self::rotated_right(n1)
        } else {
            n1
        };
        if Self::red(n2.left) && Self::red(n2.right) {
            Self::flipped(n2)
        } else {
            n2
        }
    }

    /// Left-leaning red-black insertion below a slot: a red leaf at the end of
    /// the search path, every node on the way back up repaired; a key that is
    /// present leaves the subtree as it is.
    pub open spec fn inserted(t: Option<Box<RBNode<K>>>, v: K) -> Option<Box<RBNode<K>>>
        decreases t,
    {
        match t {
            None => Some(Box::new(RBNode { value: v, left: None, right: None, color: Color::Red })),
            Some(n) => if v.less(n.value) {
                Some(Box::new(Self::balanced_after_insert(Self::with_left(*n, Self::inserted(n.left, v)))))
            } else if n.value.less(v) {
                Some(Box::new(Self::balanced_after_insert(Self::with_right(*n, Self::inserted(n.right, v)))))
            } else {
                t
            },
        }
    }

    /// The slot with its node, if any, colored black.
    pub open spec fn blackened(t: Option<Box<RBNode<K>>>) -> Option<Box<RBNode<K>>> {
        match t {
            None => None,
            Some(n) => Some(Box::new(RBNode { value: n.value, left: n.left, right: n.right, color: Color::Black })),
        }
    }

    /// The node after `move_red_left`: a flip, and when that leaves the right
    /// child's left child red, a right rotation of the right child, a left
    /// rotation of the node and a second flip.
    pub open spec fn moved_red_left(n: RBNode<K>) -> RBNode<K> {
        let f = Self::flipped(n);
        if f.right is Some && Self::red(f.right->0.left) {
            Self::flipped(
                Self::rotated_left(
                    Self::with_right(f, Some(Box::new(Self::rotated_right(*f.right->0)))),
                ),
            )
        } else {
            f
        }
    }

    /// The node after `move_red_right`: a flip, and when that leaves the left
    /// child's left child red, a right rotation and a second flip.
    pub open spec fn moved_red_right(n: RBNode<K>) -> RBNode<K> {
        let f = Self::flipped(n);
        if f.left is Some && Self::red(f.left->0.left) {
            Self::flipped(Self::rotated_right(f))
        } else {
            f
        }
    }

    /// The repair on the way back up from a removal: a red right child is
    /// rotated left, two reds in a row on the left are rotated right, and two
    /// red children are split by a flip.
    pub open spec fn fixed_up(n: RBNode<K>) -> RBNode<K> {
        let n1 = if Self::red(n.right) {
            Self::rotated_left(n)
        } else {
            n
        };
        let n2 = if Self::red(n1.left) && Self::red(n1.left->0.left) {
            Self::rotated_right(n1)
        } else {
            n1
        };
        if Self::red(n2.left) && Self::red(n2.right) {
            Self::flipped(n2)
        } else {
            n2
        }
    }

    pub proof fn lemma_step_sizes(n: RBNode<K>)
        ensures
            Self::flipped(n).shape() == n.shape(),
            n.left is Some ==> Self::rotated_right(n).shape().size() == n.shape().size(),
            n.right is Some ==> Self::rotated_left(n).shape().size() == n.shape().size(),
            n.left is Some ==> Self::moved_red_left(n).shape().size() == n.shape().size()
                && Self::moved_red_left(n).left is Some,
            Self::moved_red_right(n).shape().size() == n.shape().size(),
            Self::moved_red_right(n).right is Some <== n.right is Some,
    {
        Self::lemma_recolored(n.left);
        Self::lemma_recolored(n.right);
        assert(Self::flipped(n).shape() == n.shape());
        if n.left is Some {
            let x = n.left->0;
            assert(Self::shape_of(n.left).size() == Self::shape_of(x.left).size() + Self::shape_of(x.right).size() + 1);
            let r = Self::rotated_right(n);
            assert(Self::shape_of(r.right).size() == Self::shape_of(x.right).size() + Self::shape_of(n.right).size() + 1);
        }
        if n.right is Some {
            let x = n.right->0;
            assert(Self::shape_of(n.right).size() == Self::shape_of(x.left).size() + Self::shape_of(x.right).size() + 1);
            let r = Self::rotated_left(n);
            assert(Self::shape_of(r.left).size() == Self::shape_of(n.left).size() + Self::shape_of(x.left).size() + 1);
        }
        let f = Self::flipped(n);
        Self::lemma_recolored(f.left);
        Self::lemma_recolored(f.right);
        if f.right is Some && Self::red(f.right->0.left) {
            let x = *f.right->0;
            let y = x.left->0;
            assert(Self::shape_of(x.left).size() == Self::shape_of(y.left).size() + Self::shape_of(y.right).size() + 1);
            let xr = Self::rotated_right(x);
            assert(Self::shape_of(xr.right).size() == Self::shape_of(y.right).size() + Self::shape_of(x.right).size() + 1);
            assert(xr.shape().size() == x.shape().size());
            let g = Self::with_right(f, Some(Box::new(xr)));
            assert(g.shape().size() == f.shape().size());
            let h = Self::rotated_left(g);
            assert(Self::shape_of(h.left).size() == Self::shape_of(g.left).size() + Self::shape_of(xr.left).size() + 1);
            Self::lemma_recolored(h.left);
            Self::lemma_recolored(h.right);
            assert(Self::flipped(h).shape() == h.shape());
        }
        if f.left is Some && Self::red(f.left->0.left) {
            let x = f.left->0;
            assert(Self::shape_of(f.left).size() == Self::shape_of(x.left).size() + Self::shape_of(x.right).size() + 1);
            let h = Self::rotated_right(f);
            assert(Self::shape_of(h.right).size() == Self::shape_of(x.right).size() + Self::shape_of(f.right).size() + 1);
            Self::lemma_recolored(h.left);
            Self::lemma_recolored(h.right);
            assert(Self::flipped(h).shape() == h.shape());
        }
    }

    /// Removal of the least key below a slot, moving a red link down the
    /// leftmost path first and repairing every node on the way back up.
    pub open spec fn removed_min(t: Option<Box<RBNode<K>>>) -> Option<Box<RBNode<K>>>
        decreases Self::shape_of(t).size(),
    {
        match t {
            None => None,
            Some(h) => if h.left is None {
                h.right
            } else {
                let m = if !Self::red(h.left) && !Self::red(h.left->0.left) {
                    Self::moved_red_left(*h)
                } else {
                    *h
                };
                proof {
                    Self::lemma_step_sizes(*h);
                    assert(Self::shape_of(m.left).size() < m.shape().size());
                }
                Some(Box::new(Self::fixed_up(Self::with_left(m, Self::removed_min(m.left)))))
            },
        }
    }

    /// Left-leaning red-black removal of `v` below a slot (see
    /// `RedBlackTree::remove`).
    pub open spec fn removed(t: Option<Box<RBNode<K>>>, v: K) -> Option<Box<RBNode<K>>>
        decreases Self::shape_of(t).size(),
    {
        match t {
            None => None,
            Some(h) => if v.less(h.value) {
                if h.left is None {
                    Some(Box::new(Self::fixed_up(*h)))
                } else {
                    let m = if !Self::red(h.left) && !Self::red(h.left->0.left) {
                        Self::moved_red_left(*h)
                    } else {
                        *h
                    };
                    proof {
                        Self::lemma_step_sizes(*h);
                        assert(Self::shape_of(m.left).size() < m.shape().size());
                    }
                    Some(Box::new(Self::fixed_up(Self::with_left(m, Self::removed(m.left, v)))))
                }
            } else {
                let n1 = if Self::red(h.left) {
                    Self::rotated_right(*h)
                } else {
                    *h
                };
                if v == n1.value && n1.right is None {
                    n1.left
                } else if n1.right is Some {
                    let m = if !Self::red(n1.right) && !Self::red(n1.right->0.left) {
                        Self::moved_red_right(n1)
                    } else {
                        n1
                    };
                    if v == m.value {
                        Some(
                            Box::new(
                                Self::fixed_up(
                                    RBNode {
                                        value: Self::shape_of(m.right).leftmost(),
                                        left: m.left,
                                        right: Self::removed_min(m.right),
                                        color: m.color,
                                    },
                                ),
                            ),
                        )
                    } else {
                        proof {
                            Self::lemma_step_sizes(*h);
                            Self::lemma_step_sizes(n1);
                            assert(Self::shape_of(m.right).size() < m.shape().size());
                        }
                        Some(Box::new(Self::fixed_up(Self::with_right(m, Self::removed(m.right, v)))))
                    }
                } else {
                    Some(Box::new(Self::fixed_up(n1)))
                }
            },
        }
    }

    /// A red leaf.
    pub fn new(value: K) -> (r: Self)
        ensures
            r.value == value,
            r.left is None,
            r.right is None,
            r.color == Color::Red,
    {
        RBNode { value, left: None, right: None, color: Color::Red }
    }

    pub fn is_red(&self) -> (r: bool)
        ensures
            r == (self.color == Color::Red),
    {
        self.color == Color::Red
    }

    pub fn is_black(&self) -> (r: bool)
        ensures
            r == (self.color == Color::Black),
    {
        self.color == Color::Black
    }

    /// Whether a child slot holds a red node (an empty slot is black).
    pub fn is_red_node(node: &Option<Box<RBNode<K>>>) -> (r: bool)
        ensures
            r == Self::red(*node),
    {
        match node {
            None => false,
            Some(n) => n.is_red(),
        }
    }

    /// The right child becomes the root of the subtree, taking the old root's
    /// color; the old root becomes its red left child.
    pub fn rotate_left(self: Box<Self>) -> (r: Box<RBNode<K>>)
        requires
            self.right is Some,
        ensures
            ({
                let x = self.right.unwrap();
                &&& r.value == x.value
                &&& r.color == self.color
                &&& r.right == x.right
                &&& r.left == Some(
                    Box::new(RBNode { value: self.value, left: self.left, right: x.left, color: Color::Red }),
                )
            }),
            *r == Self::rotated_left(*self),
            r.shape().keys() == self.shape().keys(),
            r.shape().in_order() == self.shape().in_order(),
            r.shape().size() == self.shape().size(),
            r.shape().ordered() == self.shape().ordered(),
            Self::red(self.right) && Self::black_balanced(Some(self)) ==> Self::black_balanced(Some(r))
                && Self::black_height(Some(r)) == Self::black_height(Some(self)),
    {
        proof {
            let x = self.right.unwrap();
            Tree::lemma_rotation(
                Self::shape_of(self.left),
                self.value,
                Self::shape_of(x.left),
                x.value,
                Self::shape_of(x.right),
            );
            assert(Self::shape_of(self.right) == Tree::Node {
                left: Box::new(Self::shape_of(x.left)),
                value: x.value,
                right: Box::new(Self::shape_of(x.right)),
            });
        }
        let ghost a = Self::shape_of(self.left);
        let ghost x = self.right.unwrap();
        let ghost orig = *self;
        let mut node = self;
        let mut new_root = node.right.take().unwrap();
        new_root.color = node.color;
        node.color = Color::Red;
        node.right = new_root.left.take();
        new_root.left = Some(node);
        assert(Self::shape_of(new_root.left) == Tree::Node {
            left: Box::new(a),
            value: node.value,
            right: Box::new(Self::shape_of(x.left)),
        });
        assert(new_root.shape() == Tree::Node {
            left: Box::new(Self::shape_of(new_root.left)),
            value: x.value,
            right: Box::new(Self::shape_of(x.right)),
        });
        proof {
            if Self::red(Some(x)) && Self::black_balanced(Some(Box::new(orig))) {
                assert(orig.right == Some(x));
                assert(Self::black_height(orig.left) == Self::black_height(orig.right));
                assert(Self::black_balanced(orig.left));
                assert(Self::black_balanced(Some(x)));
                assert(Self::black_height(Some(x)) == Self::black_height(x.left));
                assert(Self::black_height(x.left) == Self::black_height(x.right));
                assert(Self::black_balanced(x.left));
                assert(Self::black_height(new_root.left) == Self::black_height(orig.left));
                assert(Self::black_balanced(new_root.left));
            }
        }
        new_root
    }

    /// The left child becomes the root of the subtree, taking the old root's
    /// color; the old root becomes its red right child.
    pub fn rotate_right(self: Box<Self>) -> (r: Box<RBNode<K>>)
        requires
            self.left is Some,
        ensures
            ({
                let x = self.left.unwrap();
                &&& r.value == x.value
                &&& r.color == self.color
                &&& r.left == x.left
                &&& r.right == Some(
                    Box::new(RBNode { value: self.value, left: x.right, right: self.right, color: Color::Red }),
                )
            }),
            *r == Self::rotated_right(*self),
            r.shape().keys() == self.shape().keys(),
            r.shape().in_order() == self.shape().in_order(),
            r.shape().size() == self.shape().size(),
            r.shape().ordered() == self.shape().ordered(),
            Self::red(self.left) && Self::black_balanced(Some(self)) ==> Self::black_balanced(Some(r))
                && Self::black_height(Some(r)) == Self::black_height(Some(self)),
    {
        proof {
            let x = self.left.unwrap();
            Tree::lemma_rotation(
                Self::shape_of(x.left),
                x.value,
                Self::shape_of(x.right),
                self.value,
                Self::shape_of(self.right),
            );
            assert(Self::shape_of(self.left) == Tree::Node {
                left: Box::new(Self::shape_of(x.left)),
                value: x.value,
                right: Box::new(Self::shape_of(x.right)),
            });
        }
        let ghost c = Self::shape_of(self.right);
        let ghost x = self.left.unwrap();
        let ghost orig = *self;
        let mut node = self;
        let mut new_root = node.left.take().unwrap();
        new_root.color = node.color;
        node.color = Color::Red;
        node.left = new_root.right.take();
        new_root.right = Some(node);
        assert(Self::shape_of(new_root.right) == Tree::Node {
            left: Box::new(Self::shape_of(x.right)),
            value: node.value,
            right: Box::new(c),
        });
        assert(new_root.shape() == Tree::Node {
            left: Box::new(Self::shape_of(x.left)),
            value: x.value,
            right: Box::new(Self::shape_of(new_root.right)),
        });
        proof {
            if Self::red(Some(x)) && Self::black_balanced(Some(Box::new(orig))) {
                assert(orig.left == Some(x));
                assert(Self::black_height(orig.left) == Self::black_height(orig.right));
                assert(Self::black_balanced(orig.right));
                assert(Self::black_balanced(Some(x)));
                assert(Self::black_height(Some(x)) == Self::black_height(x.left));
                assert(Self::black_height(x.left) == Self::black_height(x.right));
                assert(Self::black_balanced(x.right));
                assert(Self::black_height(new_root.right) == Self::black_height(x.right));
                assert(Self::black_balanced(new_root.right));
            }
        }
        new_root
    }

    /// Switches the color of this node and of each child it has.
    pub fn flip_colors(&mut self)
        ensures
            final(self).value == old(self).value,
            final(self).color == other(old(self).color),
            final(self).left == Self::recolored(old(self).left),
            final(self).right == Self::recolored(old(self).right),
            *final(self) == Self::flipped(*old(self)),
    {
        self.color = match self.color {
            Color::Red => Color::Black,
            Color::Black => Color::Red,
        };
        if let Some(left) = &mut self.left {
            left.color = match left.color {
                Color::Red => Color::Black,
                Color::Black => Color::Red,
            };
        }
        if let Some(right) = &mut self.right {
            right.color = match right.color {
                Color::Red => Color::Black,
                Color::Black => Color::Red,
            };
        }
    }

    /// What an in-order walk still owes for a stack of nodes whose left
    /// subtrees are done: from the top down, each node and its right subtree.
    pub open spec fn pending_in_order(s: Seq<&Box<RBNode<K>>>) -> Seq<K>
        decreases s.len(),
    {
        if s.len() == 0 {
            Seq::empty()
        } else {
            seq![s.last().value] + Self::shape_of(s.last().right).in_order()
                + Self::pending_in_order(s.drop_last())
        }
    }

    /// What a pre-order walk still owes for a stack of nodes already listed
    /// with their left subtrees: from the top down, each right subtree.
    pub open spec fn pending_pre_order(s: Seq<&Box<RBNode<K>>>) -> Seq<K>
        decreases s.len(),
    {
        if s.len() == 0 {
            Seq::empty()
        } else {
            Self::shape_of(s.last().right).pre_order() + Self::pending_pre_order(s.drop_last())
        }
    }

    /// What a post-order walk still owes for a stack of nodes whose left
    /// subtrees are done, each marked when its right subtree is done too.
    pub open spec fn pending_post_order(s: Seq<(&Box<RBNode<K>>, bool)>) -> Seq<K>
        decreases s.len(),
    {
        if s.len() == 0 {
            Seq::empty()
        } else {
            (if s.last().1 {
                Seq::empty()
            } else {
                Self::shape_of(s.last().0.right).post_order()
            }) + seq![s.last().0.value] + Self::pending_post_order(s.drop_last())
        }
    }

    /// Steps left before a post-order walk ends, besides listing keys.
    pub open spec fn post_order_steps(s: Seq<(&Box<RBNode<K>>, bool)>) -> nat
        decreases s.len(),
    {
        if s.len() == 0 {
            0
        } else {
            (if s.last().1 {
                0
            } else {
                1 + 2 * Self::shape_of(s.last().0.right).size()
            }) + Self::post_order_steps(s.drop_last())
        }
    }

    /// Appends the keys below `t` in in-order, with an explicit stack.
    pub(crate) fn collect_in_order<'a>(t: &'a Option<Box<RBNode<K>>>, out: &mut Vec<&'a K>)
        ensures
            deref_all(final(out)@) == deref_all(old(out)@) + Self::shape_of(*t).in_order(),
    {
        let mut stack: Vec<&'a Box<RBNode<K>>> = Vec::new();
        let mut current = t;
        proof {
            Self::shape_of(*t).lemma_traversals();
        }
        loop
            invariant
                deref_all(out@) + Self::shape_of(*current).in_order() + Self::pending_in_order(
                    stack@,
                ) == deref_all(old(out)@) + Self::shape_of(*t).in_order(),
            ensures
                deref_all(out@) == deref_all(old(out)@) + Self::shape_of(*t).in_order(),
            decreases
                Self::shape_of(*current).in_order().len() + Self::pending_in_order(stack@).len(),
                Self::shape_of(*current).size(),
        {
            let ghost before = deref_all(out@);
            let ghost old_stack = stack@;
            match current {
                Some(node) => {
                    proof {
                        Self::shape_of(node.left).lemma_traversals();
                        Self::shape_of(node.right).lemma_traversals();
                    }
                    stack.push(node);
                    current = &node.left;
                    assert(stack@.drop_last() =~= old_stack);
                },
                None => {
                    match stack.pop() {
                        None => {
                            assert(deref_all(out@) =~= deref_all(old(out)@) + Self::shape_of(*t).in_order());
                            break;
                        },
                        Some(node) => {
                            out.push(&node.value);
                            current = &node.right;
                            assert(deref_all(out@) =~= before.push(node.value));
                        },
                    }
                },
            }
        }
    }

    /// Appends the keys below `t` in pre-order, with an explicit stack.
    pub(crate) fn collect_pre_order<'a>(t: &'a Option<Box<RBNode<K>>>, out: &mut Vec<&'a K>)
        ensures
            deref_all(final(out)@) == deref_all(old(out)@) + Self::shape_of(*t).pre_order(),
    {
        let mut stack: Vec<&'a Box<RBNode<K>>> = Vec::new();
        let mut current = t;
        loop
            invariant
                deref_all(out@) + Self::shape_of(*current).pre_order() + Self::pending_pre_order(
                    stack@,
                ) == deref_all(old(out)@) + Self::shape_of(*t).pre_order(),
            ensures
                deref_all(out@) == deref_all(old(out)@) + Self::shape_of(*t).pre_order(),
            decreases
                Self::shape_of(*current).pre_order().len() + Self::pending_pre_order(stack@).len(),
                stack@.len(),
        {
            let ghost before = deref_all(out@);
            let ghost old_stack = stack@;
            match current {
                Some(node) => {
                    out.push(&node.value);
                    stack.push(node);
                    current = &node.left;
                    assert(stack@.drop_last() =~= old_stack);
                    assert(deref_all(out@) =~= before.push(node.value));
                },
                None => {
                    match stack.pop() {
                        None => {
                            assert(deref_all(out@) =~= deref_all(old(out)@) + Self::shape_of(*t).pre_order());
                            break;
                        },
                        Some(node) => {
                            current = &node.right;
                        },
                    }
                },
            }
        }
    }

    /// Appends the keys below `t` in post-order, with an explicit stack whose
    /// entries record whether the right subtree has been walked.
    pub(crate) fn collect_post_order<'a>(t: &'a Option<Box<RBNode<K>>>, out: &mut Vec<&'a K>)
        ensures
            deref_all(final(out)@) == deref_all(old(out)@) + Self::shape_of(*t).post_order(),
    {
        let mut stack: Vec<(&'a Box<RBNode<K>>, bool)> = Vec::new();
        let mut current = t;
        loop
            invariant
                deref_all(out@) + Self::shape_of(*current).post_order() + Self::pending_post_order(
                    stack@,
                ) == deref_all(old(out)@) + Self::shape_of(*t).post_order(),
            ensures
                deref_all(out@) == deref_all(old(out)@) + Self::shape_of(*t).post_order(),
            decreases
                Self::shape_of(*current).post_order().len() + Self::pending_post_order(
                    stack@,
                ).len(),
                2 * Self::shape_of(*current).size() + Self::post_order_steps(stack@),
        {
            let ghost before = deref_all(out@);
            let ghost old_stack = stack@;
            match current {
                Some(node) => {
                    proof {
                        Self::shape_of(node.left).lemma_traversals();
                        Self::shape_of(node.right).lemma_traversals();
                    }
                    stack.push((node, false));
                    current = &node.left;
                    assert(stack@.drop_last() =~= old_stack);
                },
                None => {
                    match stack.pop() {
                        None => {
                            assert(deref_all(out@) =~= deref_all(old(out)@) + Self::shape_of(*t).post_order());
                            break;
                        },
                        Some((node, right_done)) => {
                            if right_done {
                                out.push(&node.value);
                                assert(deref_all(out@) =~= before.push(node.value));
                            } else {
                                let ghost popped = stack@;
                                stack.push((node, true));
                                current = &node.right;
                                assert(stack@.drop_last() =~= popped);
                                proof {
                                    Self::shape_of(node.right).lemma_traversals();
                                }
                            }
                        },
                    }
                },
            }
        }
    }

    /// The least key under `n`: the end of the leftmost path.
    pub(crate) fn min_below(n: &RBNode<K>) -> (r: K)
        requires
            n.shape().ordered(),
        ensures
            is_least(n.shape().keys(), r),
            r == n.shape().leftmost(),
    {
        let mut cur = n;
        loop
            invariant
                n.shape().ordered(),
                cur.shape().leftmost() == n.shape().leftmost(),
            decreases cur.shape().size(),
        {
            match &cur.left {
                None => {
                    assert(cur.shape().leftmost() == cur.value);
                    proof {
                        n.shape().lemma_extremes();
                    }
                    return cur.value;
                },
                Some(l) => {
                    assert(Self::shape_of(cur.left).size() < cur.shape().size());
                    cur = l;
                },
            }
        }
    }

    /// The greatest key under `n`: the end of the rightmost path.
    pub(crate) fn max_below(n: &RBNode<K>) -> (r: K)
        requires
            n.shape().ordered(),
        ensures
            is_greatest(n.shape().keys(), r),
            r == n.shape().rightmost(),
    {
        let mut cur = n;
        loop
            invariant
                n.shape().ordered(),
                cur.shape().rightmost() == n.shape().rightmost(),
            decreases cur.shape().size(),
        {
            match &cur.right {
                None => {
                    assert(cur.shape().rightmost() == cur.value);
                    proof {
                        n.shape().lemma_extremes();
                    }
                    return cur.value;
                },
                Some(rt) => {
                    assert(Self::shape_of(cur.right).size() < cur.shape().size());
                    cur = rt;
                },
            }
        }
    }

    /// The models of a sequence of subtrees.
    pub open spec fn shapes(v: Seq<&Box<RBNode<K>>>) -> Seq<Tree<K>> {
        v.map_values(|b: &Box<RBNode<K>>| Self::shape_of(Some(*b)))
    }

    /// One step of a breadth-first walk: appends the keys of the subtrees of
    /// `level` and the links to their children, and returns those children.
    pub(crate) fn next_level<'a>(
        level: &Vec<&'a Box<RBNode<K>>>,
        keys: &mut Vec<&'a K>,
        links: &mut Vec<(&'a K, &'a K)>,
    ) -> (r: Vec<&'a Box<RBNode<K>>>)
        ensures
            Self::shapes(r@) == children_of(Self::shapes(level@)),
            deref_all(final(keys)@) == deref_all(old(keys)@) + root_values(Self::shapes(level@)),
            deref_pairs(final(links)@) == deref_pairs(old(links)@) + links_of(Self::shapes(level@)),
    {
        let ghost all = Self::shapes(level@);
        let mut next: Vec<&'a Box<RBNode<K>>> = Vec::new();
        let mut i: usize = 0;
        while i < level.len()
            invariant
                0 <= i <= level@.len(),
                all == Self::shapes(level@),
                Self::shapes(next@) == children_of(all.take(i as int)),
                deref_all(keys@) == deref_all(old(keys)@) + root_values(all.take(i as int)),
                deref_pairs(links@) == deref_pairs(old(links)@) + links_of(all.take(i as int)),
            decreases level@.len() - i,
        {
            let n = level[i];
            let ghost before_next = next@;
            let ghost before_keys = keys@;
            let ghost before_links = links@;
            keys.push(&n.value);
            let ghost ls = Self::shape_of(n.left);
            let ghost rs = Self::shape_of(n.right);
            if let Some(l) = &n.left {
                next.push(l);
                links.push((&n.value, &l.value));
            }
            proof {
                assert(Self::shapes(next@) =~= Self::shapes(before_next) + crate::tree::non_empty(ls));
                assert(deref_pairs(links@) =~= deref_pairs(before_links) + crate::tree::non_empty(
                    ls,
                ).map_values(|c: Tree<K>| (n.value, c->value)));
            }
            let ghost mid_next = next@;
            let ghost mid_links = links@;
            if let Some(rt) = &n.right {
                next.push(rt);
                links.push((&n.value, &rt.value));
            }
            proof {
                assert(Self::shapes(next@) =~= Self::shapes(mid_next) + crate::tree::non_empty(rs));
                assert(deref_pairs(links@) =~= deref_pairs(mid_links) + crate::tree::non_empty(
                    rs,
                ).map_values(|c: Tree<K>| (n.value, c->value)));
                let t = all[i as int];
                assert(all.take(i + 1).drop_last() =~= all.take(i as int));
                assert(all.take(i + 1).last() == t);
                assert(t == Self::shape_of(Some(*n)));
                assert(Self::shapes(next@) =~= children_of(all.take(i + 1)));
                assert(deref_pairs(links@) =~= deref_pairs(old(links)@) + links_of(all.take(i + 1)));
                assert(deref_all(keys@) =~= deref_all(before_keys).push(n.value));
                assert(root_values(all.take(i + 1)) =~= root_values(all.take(i as int)).push(t->value));
                assert(deref_all(keys@) =~= deref_all(old(keys)@) + root_values(all.take(i + 1)));
            }
            i = i + 1;
        }
        assert(all.take(level@.len() as int) =~= all);
        next
    }

}

} // verus!
