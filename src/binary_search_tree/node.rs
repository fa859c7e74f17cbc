//! The nodes of the unbalanced binary search tree.
use vstd::prelude::*;

use core::cmp::Ordering;

use crate::key::{OrderedKey, lemma_strict_order};
use crate::tree::{
    plug,
    Tree,
    children_of,
    deref_all,
    deref_pairs,
    is_greatest,
    is_least,
    links_of,
    root_values,
};

verus! {

/// A node: a key and two owned child slots.
pub struct BinaryNode<K> {
    pub value: K,
    pub left: Option<Box<BinaryNode<K>>>,
    pub right: Option<Box<BinaryNode<K>>>,
}

impl<K: OrderedKey> BinaryNode<K> {
    /// The model of the subtree held in a child slot.
    pub open spec fn shape_of(t: Option<Box<BinaryNode<K>>>) -> Tree<K>
        decreases t,
    {
        match t {
            None => Tree::Empty,
            Some(n) => Tree::Node {
                left: Box::new(Self::shape_of(n.left)),
                value: n.value,
                right: Box::new(Self::shape_of(n.right)),
            },
        }
    }

    /// The model of the subtree rooted at this node.
    pub open spec fn shape(self) -> Tree<K> {
        Self::shape_of(Some(Box::new(self)))
    }

    /// A node with no children.
    pub fn new(value: K) -> (r: Self)
        ensures
            r.value == value,
            r.left is None,
            r.right is None,
    {
        BinaryNode { value, left: None, right: None }
    }

    /// What an in-order walk still owes for a stack of nodes whose left
    /// subtrees are done: from the top down, each node and its right subtree.
    pub open spec fn pending_in_order(s: Seq<&Box<BinaryNode<K>>>) -> Seq<K>
        decreases s.len(),
    {
        if s.len() == 0 {
            Seq::empty()
        } else {
            seq![s.last().value] + Self::shape_of(s.last().right).in_order()
                + Self::pending_in_order(s.drop_last())
        }
    }

    /// What a pre-order walk still owes for a stack of nodes already listed
    /// with their left subtrees: from the top down, each right subtree.
    pub open spec fn pending_pre_order(s: Seq<&Box<BinaryNode<K>>>) -> Seq<K>
        decreases s.len(),
    {
        if s.len() == 0 {
            Seq::empty()
        } else {
            Self::shape_of(s.last().right).pre_order() + Self::pending_pre_order(s.drop_last())
        }
    }

    /// What a post-order walk still owes for a stack of nodes whose left
    /// subtrees are done, each marked when its right subtree is done too.
    pub open spec fn pending_post_order(s: Seq<(&Box<BinaryNode<K>>, bool)>) -> Seq<K>
        decreases s.len(),
    {
        if s.len() == 0 {
            Seq::empty()
        } else {
            (if s.last().1 {
                Seq::empty()
            } else {
                Self::shape_of(s.last().0.right).post_order()
            }) + seq![s.last().0.value] + Self::pending_post_order(s.drop_last())
        }
    }

    /// Steps left before a post-order walk ends, besides listing keys.
    pub open spec fn post_order_steps(s: Seq<(&Box<BinaryNode<K>>, bool)>) -> nat
        decreases s.len(),
    {
        if s.len() == 0 {
            0
        } else {
            (if s.last().1 {
                0
            } else {
                1 + 2 * Self::shape_of(s.last().0.right).size()
            }) + Self::post_order_steps(s.drop_last())
        }
    }

    /// Appends the keys below `t` in in-order, with an explicit stack.
    pub(crate) fn collect_in_order<'a>(t: &'a Option<Box<BinaryNode<K>>>, out: &mut Vec<&'a K>)
        ensures
            deref_all(final(out)@) == deref_all(old(out)@) + Self::shape_of(*t).in_order(),
    {
        let mut stack: Vec<&'a Box<BinaryNode<K>>> = Vec::new();
        let mut current = t;
        proof {
            Self::shape_of(*t).lemma_traversals();
        }
        loop
            invariant
                deref_all(out@) + Self::shape_of(*current).in_order() + Self::pending_in_order(
                    stack@,
                ) == deref_all(old(out)@) + Self::shape_of(*t).in_order(),
            ensures
                deref_all(out@) == deref_all(old(out)@) + Self::shape_of(*t).in_order(),
            decreases
                Self::shape_of(*current).in_order().len() + Self::pending_in_order(stack@).len(),
                Self::shape_of(*current).size(),
        {
            let ghost before = deref_all(out@);
            let ghost old_stack = stack@;
            match current {
                Some(node) => {
                    proof {
                        Self::shape_of(node.left).lemma_traversals();
                        Self::shape_of(node.right).lemma_traversals();
                    }
                    stack.push(node);
                    current = &node.left;
                    assert(stack@.drop_last() =~= old_stack);
                },
                None => {
                    match stack.pop() {
                        None => {
                            assert(deref_all(out@) =~= deref_all(old(out)@) + Self::shape_of(*t).in_order());
                            break;
                        },
                        Some(node) => {
                            out.push(&node.value);
                            current = &node.right;
                            assert(deref_all(out@) =~= before.push(node.value));
                        },
                    }
                },
            }
        }
    }

    /// Appends the keys below `t` in pre-order, with an explicit stack.
    pub(crate) fn collect_pre_order<'a>(t: &'a Option<Box<BinaryNode<K>>>, out: &mut Vec<&'a K>)
        ensures
            deref_all(final(out)@) == deref_all(old(out)@) + Self::shape_of(*t).pre_order(),
    {
        let mut stack: Vec<&'a Box<BinaryNode<K>>> = Vec::new();
        let mut current = t;
        loop
            invariant
                deref_all(out@) + Self::shape_of(*current).pre_order() + Self::pending_pre_order(
                    stack@,
                ) == deref_all(old(out)@) + Self::shape_of(*t).pre_order(),
            ensures
                deref_all(out@) == deref_all(old(out)@) + Self::shape_of(*t).pre_order(),
            decreases
                Self::shape_of(*current).pre_order().len() + Self::pending_pre_order(stack@).len(),
                stack@.len(),
        {
            let ghost before = deref_all(out@);
            let ghost old_stack = stack@;
            match current {
                Some(node) => {
                    out.push(&node.value);
                    stack.push(node);
                    current = &node.left;
                    assert(stack@.drop_last() =~= old_stack);
                    assert(deref_all(out@) =~= before.push(node.value));
                },
                None => {
                    match stack.pop() {
                        None => {
                            assert(deref_all(out@) =~= deref_all(old(out)@) + Self::shape_of(*t).pre_order());
                            break;
                        },
                        Some(node) => {
                            current = &node.right;
                        },
                    }
                },
            }
        }
    }

    /// Appends the keys below `t` in post-order, with an explicit stack whose
    /// entries record whether the right subtree has been walked.
    pub(crate) fn collect_post_order<'a>(t: &'a Option<Box<BinaryNode<K>>>, out: &mut Vec<&'a K>)
        ensures
            deref_all(final(out)@) == deref_all(old(out)@) + Self::shape_of(*t).post_order(),
    {
        let mut stack: Vec<(&'a Box<BinaryNode<K>>, bool)> = Vec::new();
        let mut current = t;
        loop
            invariant
                deref_all(out@) + Self::shape_of(*current).post_order() + Self::pending_post_order(
                    stack@,
                ) == deref_all(old(out)@) + Self::shape_of(*t).post_order(),
            ensures
                deref_all(out@) == deref_all(old(out)@) + Self::shape_of(*t).post_order(),
            decreases
                Self::shape_of(*current).post_order().len() + Self::pending_post_order(
                    stack@,
                ).len(),
                2 * Self::shape_of(*current).size() + Self::post_order_steps(stack@),
        {
            let ghost before = deref_all(out@);
            let ghost old_stack = stack@;
            match current {
                Some(node) => {
                    proof {
                        Self::shape_of(node.left).lemma_traversals();
                        Self::shape_of(node.right).lemma_traversals();
                    }
                    stack.push((node, false));
                    current = &node.left;
                    assert(stack@.drop_last() =~= old_stack);
                },
                None => {
                    match stack.pop() {
                        None => {
                            assert(deref_all(out@) =~= deref_all(old(out)@) + Self::shape_of(*t).post_order());
                            break;
                        },
                        Some((node, right_done)) => {
                            if right_done {
                                out.push(&node.value);
                                assert(deref_all(out@) =~= before.push(node.value));
                            } else {
                                let ghost popped = stack@;
                                stack.push((node, true));
                                current = &node.right;
                                assert(stack@.drop_last() =~= popped);
                                proof {
                                    Self::shape_of(node.right).lemma_traversals();
                                }
                            }
                        },
                    }
                },
            }
        }
    }

    /// Adds `value` at the end of its search path below the slot `root`,
    /// walking down with a cursor.
    pub(crate) fn insert_at(root: &mut Option<Box<BinaryNode<K>>>, value: K)
        ensures
            Self::shape_of(*final(root)) == Self::shape_of(*old(root)).insert_leaf(value),
    {
        let ghost start = Self::shape_of(*root);
        let ghost mut frames: Seq<(bool, K, Tree<K>)> = Seq::empty();
        let mut cur = root;
        loop
            invariant
                start == Self::shape_of(*old(root)),
                start.insert_leaf(value) == plug(frames, Self::shape_of(*cur).insert_leaf(value)),
                Self::shape_of(*final(root)) == plug(frames, Self::shape_of(*final(cur))),
            decreases Self::shape_of(*cur).size(),
        {
            let ghost old_cur = *cur;
            let ghost old_frames = frames;
            match cur {
                None => {
                    *cur = Some(Box::new(BinaryNode::new(value)));
                    assert(Self::shape_of(*cur) == Tree::leaf(value));
                    return;
                },
                Some(node) => {
                    let ghost n = **node;
                    assert(Self::shape_of(old_cur) == Tree::Node {
                        left: Box::new(Self::shape_of(n.left)),
                        value: n.value,
                        right: Box::new(Self::shape_of(n.right)),
                    });
                    match value.compare(&node.value) {
                        Ordering::Less => {
                            proof {
                                frames = frames.push((true, node.value, Self::shape_of(node.right)));
                                assert(frames.drop_last() =~= old_frames);
                            }
                            cur = &mut node.left;
                        },
                        Ordering::Greater => {
                            proof {
                                frames = frames.push((false, node.value, Self::shape_of(node.left)));
                                assert(frames.drop_last() =~= old_frames);
                            }
                            cur = &mut node.right;
                        },
                        Ordering::Equal => {
                            assert(Self::shape_of(old_cur).insert_leaf(value) == Self::shape_of(old_cur));
                            return;
                        },
                    }
                },
            }
        }
    }

    /// Takes the least key out of the non-empty slot `root`, walking down the
    /// leftmost path with a cursor; that node is replaced by its right child.
    pub(crate) fn detach_min_at(root: &mut Option<Box<BinaryNode<K>>>) -> (r: K)
        requires
            old(root).is_some(),
        ensures
            r == Self::shape_of(*old(root)).leftmost(),
            Self::shape_of(*final(root)) == Self::shape_of(*old(root)).without_leftmost(),
    {
        let ghost start = Self::shape_of(*root);
        let ghost mut frames: Seq<(bool, K, Tree<K>)> = Seq::empty();
        let mut cur = root;
        loop
            invariant
                start == Self::shape_of(*old(root)),
                cur.is_some(),
                start.leftmost() == Self::shape_of(*cur).leftmost(),
                start.without_leftmost() == plug(frames, Self::shape_of(*cur).without_leftmost()),
                Self::shape_of(*final(root)) == plug(frames, Self::shape_of(*final(cur))),
            decreases Self::shape_of(*cur).size(),
        {
            let ghost old_cur = *cur;
            let ghost old_frames = frames;
            let left_empty = match &*cur {
                Some(n) => n.left.is_none(),
                None => false,
            };
            if left_empty {
                let n = cur.take().unwrap();
                assert(old_cur == Some(n));
                assert(n.left.is_none());
                assert(Self::shape_of(n.left) == Tree::<K>::Empty);
                assert(Self::shape_of(old_cur) == Tree::Node {
                    left: Box::new(Tree::<K>::Empty),
                    value: n.value,
                    right: Box::new(Self::shape_of(n.right)),
                });
                assert(Self::shape_of(old_cur).leftmost() == n.value);
                assert(Self::shape_of(old_cur).without_leftmost() == Self::shape_of(n.right));
                let r = n.value;
                *cur = n.right;
                return r;
            }
            let node = cur.as_mut().unwrap();
            let ghost n = **node;
            assert(Self::shape_of(old_cur) == Tree::Node {
                left: Box::new(Self::shape_of(n.left)),
                value: n.value,
                right: Box::new(Self::shape_of(n.right)),
            });
            proof {
                frames = frames.push((true, node.value, Self::shape_of(node.right)));
                assert(frames.drop_last() =~= old_frames);
            }
            cur = &mut node.left;
        }
    }

    /// Removes `value` from below the slot `root`, walking down with a cursor;
    /// a node with two children takes the key of its in-order successor.
    pub(crate) fn remove_at(root: &mut Option<Box<BinaryNode<K>>>, value: &K)
        ensures
            Self::shape_of(*final(root)) == Self::shape_of(*old(root)).remove_splice(*value),
    {
        let ghost start = Self::shape_of(*root);
        let ghost mut frames: Seq<(bool, K, Tree<K>)> = Seq::empty();
        let mut cur = root;
        loop
            invariant
                start == Self::shape_of(*old(root)),
                start.remove_splice(*value) == plug(frames, Self::shape_of(*cur).remove_splice(*value)),
                Self::shape_of(*final(root)) == plug(frames, Self::shape_of(*final(cur))),
            decreases Self::shape_of(*cur).size(),
        {
            let ghost old_cur = *cur;
            let ghost old_frames = frames;
            let order = match &*cur {
                Some(n) => value.compare(&n.value),
                None => {
                    return;
                },
            };
            if matches!(order, Ordering::Equal) {
                let mut n = cur.take().unwrap();
                proof {
                    K::lemma_irreflexive(n.value);
                }
                assert(Self::shape_of(old_cur) == Tree::Node {
                    left: Box::new(Self::shape_of(n.left)),
                    value: n.value,
                    right: Box::new(Self::shape_of(n.right)),
                });
                if n.left.is_none() {
                    *cur = n.right;
                } else if n.right.is_none() {
                    *cur = n.left;
                } else {
                    n.value = Self::detach_min_at(&mut n.right);
                    *cur = Some(n);
                }
                return;
            }
            let node = cur.as_mut().unwrap();
            let ghost n = **node;
            assert(Self::shape_of(old_cur) == Tree::Node {
                left: Box::new(Self::shape_of(n.left)),
                value: n.value,
                right: Box::new(Self::shape_of(n.right)),
            });
            if matches!(order, Ordering::Less) {
                proof {
                    frames = frames.push((true, node.value, Self::shape_of(node.right)));
                    assert(frames.drop_last() =~= old_frames);
                }
                cur = &mut node.left;
            } else {
                proof {
                    frames = frames.push((false, node.value, Self::shape_of(node.left)));
                    assert(frames.drop_last() =~= old_frames);
                }
                cur = &mut node.right;
            }
        }
    }

    /// The least key under `n`: the end of the leftmost path.
    pub(crate) fn min_below(n: &BinaryNode<K>) -> (r: K)
        requires
            n.shape().ordered(),
        ensures
            is_least(n.shape().keys(), r),
            r == n.shape().leftmost(),
    {
        let mut cur = n;
        loop
            invariant
                n.shape().ordered(),
                cur.shape().leftmost() == n.shape().leftmost(),
            decreases cur.shape().size(),
        {
            match &cur.left {
                None => {
                    assert(cur.shape().leftmost() == cur.value);
                    proof {
                        n.shape().lemma_extremes();
                    }
                    return cur.value;
                },
                Some(l) => {
                    assert(Self::shape_of(cur.left).size() < cur.shape().size());
                    cur = l;
                },
            }
        }
    }

    /// The greatest key under `n`: the end of the rightmost path.
    pub(crate) fn max_below(n: &BinaryNode<K>) -> (r: K)
        requires
            n.shape().ordered(),
        ensures
            is_greatest(n.shape().keys(), r),
            r == n.shape().rightmost(),
    {
        let mut cur = n;
        loop
            invariant
                n.shape().ordered(),
                cur.shape().rightmost() == n.shape().rightmost(),
            decreases cur.shape().size(),
        {
            match &cur.right {
                None => {
                    assert(cur.shape().rightmost() == cur.value);
                    proof {
                        n.shape().lemma_extremes();
                    }
                    return cur.value;
                },
                Some(rt) => {
                    assert(Self::shape_of(cur.right).size() < cur.shape().size());
                    cur = rt;
                },
            }
        }
    }

    /// The models of a sequence of subtrees.
    pub open spec fn shapes(v: Seq<&Box<BinaryNode<K>>>) -> Seq<Tree<K>> {
        v.map_values(|b: &Box<BinaryNode<K>>| Self::shape_of(Some(*b)))
    }

    /// One step of a breadth-first walk: appends the keys of the subtrees of
    /// `level` and the links to their children, and returns those children.
    pub(crate) fn next_level<'a>(
        level: &Vec<&'a Box<BinaryNode<K>>>,
        keys: &mut Vec<&'a K>,
        links: &mut Vec<(&'a K, &'a K)>,
    ) -> (r: Vec<&'a Box<BinaryNode<K>>>)
        ensures
            Self::shapes(r@) == children_of(Self::shapes(level@)),
            deref_all(final(keys)@) == deref_all(old(keys)@) + root_values(Self::shapes(level@)),
            deref_pairs(final(links)@) == deref_pairs(old(links)@) + links_of(Self::shapes(level@)),
    {
        let ghost all = Self::shapes(level@);
        let mut next: Vec<&'a Box<BinaryNode<K>>> = Vec::new();
        let mut i: usize = 0;
        while i < level.len()
            invariant
                0 <= i <= level@.len(),
                all == Self::shapes(level@),
                Self::shapes(next@) == children_of(all.take(i as int)),
                deref_all(keys@) == deref_all(old(keys)@) + root_values(all.take(i as int)),
                deref_pairs(links@) == deref_pairs(old(links)@) + links_of(all.take(i as int)),
            decreases level@.len() - i,
        {
            let n = level[i];
            let ghost before_next = next@;
            let ghost before_keys = keys@;
            let ghost before_links = links@;
            keys.push(&n.value);
            let ghost ls = Self::shape_of(n.left);
            let ghost rs = Self::shape_of(n.right);
            if let Some(l) = &n.left {
                next.push(l);
                links.push((&n.value, &l.value));
            }
            proof {
                assert(Self::shapes(next@) =~= Self::shapes(before_next) + crate::tree::non_empty(ls));
                assert(deref_pairs(links@) =~= deref_pairs(before_links) + crate::tree::non_empty(
                    ls,
                ).map_values(|c: Tree<K>| (n.value, c->value)));
            }
            let ghost mid_next = next@;
            let ghost mid_links = links@;
            if let Some(rt) = &n.right {
                next.push(rt);
                links.push((&n.value, &rt.value));
            }
            proof {
                assert(Self::shapes(next@) =~= Self::shapes(mid_next) + crate::tree::non_empty(rs));
                assert(deref_pairs(links@) =~= deref_pairs(mid_links) + crate::tree::non_empty(
                    rs,
                ).map_values(|c: Tree<K>| (n.value, c->value)));
                let t = all[i as int];
                assert(all.take(i + 1).drop_last() =~= all.take(i as int));
                assert(all.take(i + 1).last() == t);
                assert(t == Self::shape_of(Some(*n)));
                assert(Self::shapes(next@) =~= children_of(all.take(i + 1)));
                assert(deref_pairs(links@) =~= deref_pairs(old(links)@) + links_of(all.take(i + 1)));
                assert(deref_all(keys@) =~= deref_all(before_keys).push(n.value));
                assert(root_values(all.take(i + 1)) =~= root_values(all.take(i as int)).push(t->value));
                assert(deref_all(keys@) =~= deref_all(old(keys)@) + root_values(all.take(i + 1)));
            }
            i = i + 1;
        }
        assert(all.take(level@.len() as int) =~= all);
        next
    }
}

} // verus!
