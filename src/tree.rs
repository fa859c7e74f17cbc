//! A mathematical model of a binary tree, shared by the three containers.
//!
//! Every node type of this crate maps to a `Tree` of its keys; the laws of
//! search trees (order, traversals, extremes, rotations) are stated and proved
//! here once, over that model.
use vstd::prelude::*;

use crate::key::{OrderedKey, lemma_strict_order};

verus! {

/// The shape and the keys of a binary tree.
pub enum Tree<K> {
    Empty,
    Node { left: Box<Tree<K>>, value: K, right: Box<Tree<K>> },
}

/// The keys behind a sequence of shared references.
pub open spec fn deref_all<K>(s: Seq<&K>) -> Seq<K> {
    s.map_values(|r: &K| *r)
}

/// Two to the power `n`.
pub open spec fn exp2(n: nat) -> nat
    decreases n,
{
    if n == 0 {
        1
    } else {
        2 * exp2((n - 1) as nat)
    }
}

pub proof fn lemma_exp2_monotonic(i: nat, j: nat)
    requires
        i <= j,
    ensures
        exp2(i) <= exp2(j),
    decreases j,
{
    if i < j {
        lemma_exp2_monotonic(i, (j - 1) as nat);
    }
}

pub proof fn lemma_exp2_grows(n: nat)
    requires
        n >= 2,
    ensures
        exp2(n) >= n + 2,
    decreases n,
{
    if n > 2 {
        lemma_exp2_grows((n - 1) as nat);
    } else {
        assert(exp2(0) == 1);
        assert(exp2(1) == 2);
        assert(exp2(2) == 4);
    }
}

pub proof fn lemma_exp2_add(i: nat, j: nat)
    ensures
        exp2(i + j) == exp2(i) * exp2(j),
    decreases j,
{
    if j == 0 {
        assert(exp2(0) == 1);
        assert(i + j == i);
    } else {
        lemma_exp2_add(i, (j - 1) as nat);
        assert((i + j - 1) as nat == i + (j - 1) as nat);
        assert(exp2(i + j) == 2 * exp2((i + j - 1) as nat));
        assert(exp2(i) * exp2(j) == exp2(i) * (2 * exp2((j - 1) as nat)));
        assert(exp2(i) * (2 * exp2((j - 1) as nat)) == 2 * (exp2(i) * exp2((j - 1) as nat)))
            by (nonlinear_arith);
    }
}

/// A cached least key: none exactly when `s` is empty.
pub open spec fn least_option<K: OrderedKey>(s: Set<K>, o: Option<K>) -> bool {
    match o {
        None => s == Set::<K>::empty(),
        Some(m) => is_least(s, m),
    }
}

/// A cached greatest key: none exactly when `s` is empty.
pub open spec fn greatest_option<K: OrderedKey>(s: Set<K>, o: Option<K>) -> bool {
    match o {
        None => s == Set::<K>::empty(),
        Some(m) => is_greatest(s, m),
    }
}

/// Every key of `s` lies strictly between the bounds that are given.
pub open spec fn within<K: OrderedKey>(s: Set<K>, lo: Option<K>, hi: Option<K>) -> bool {
    forall|k: K| #[trigger] s.contains(k) ==> (lo is Some ==> lo->0.less(k)) && (hi is Some ==> k.less(hi->0))
}

/// The keys behind an optional shared reference.
pub open spec fn deref_option<K>(o: Option<&K>) -> Option<K> {
    match o {
        Some(r) => Some(*r),
        None => None,
    }
}

/// Inserting a key makes it a member and removing it makes it none; no other
/// key changes membership either way.
pub proof fn lemma_membership<K>(s: Set<K>, v: K, w: K)
    ensures
        s.insert(v).contains(v),
        !s.remove(v).contains(v),
        w != v ==> s.insert(v).contains(w) == s.contains(w),
        w != v ==> s.remove(v).contains(w) == s.contains(w),
{
}

/// Ceiling and floor are unique. Of a key that is present both are the key
/// itself; for a query strictly between two adjacent keys the ceiling is the
/// larger and the floor the smaller; below the least key there is no floor and
/// above the greatest no ceiling.
pub proof fn lemma_ceiling_floor<K: OrderedKey>(s: Set<K>, q: K, lo: K, hi: K)
    ensures
        is_ceiling(s, q, lo) && is_ceiling(s, q, hi) ==> lo == hi,
        is_floor(s, q, lo) && is_floor(s, q, hi) ==> lo == hi,
        s.contains(q) ==> is_ceiling(s, q, q) && is_floor(s, q, q),
        s.contains(lo) && s.contains(hi) && lo.less(q) && q.less(hi) && (forall|x: K|
            #[trigger] s.contains(x) ==> !(lo.less(x) && x.less(hi))) ==> is_ceiling(s, q, hi)
            && is_floor(s, q, lo),
        is_least(s, lo) && q.less(lo) ==> !has_floor(s, q),
        is_greatest(s, hi) && hi.less(q) ==> !has_ceiling(s, q),
{
    lemma_strict_order::<K>();
    if s.contains(lo) && s.contains(hi) && lo.less(q) && q.less(hi) && (forall|x: K|
        #[trigger] s.contains(x) ==> !(lo.less(x) && x.less(hi))) {
        assert forall|x: K| #[trigger] s.contains(x) && !x.less(q) implies !x.less(hi) by {
            if x.less(hi) {
                assert(!lo.less(x));
                if x != lo {
                    assert(x.less(lo));
                    K::lemma_transitive(x, lo, q);
                }
            }
        }
        assert forall|x: K| #[trigger] s.contains(x) && !q.less(x) implies !lo.less(x) by {
            if lo.less(x) {
                assert(!x.less(hi));
                if x != hi {
                    assert(hi.less(x));
                    K::lemma_transitive(q, hi, x);
                }
            }
        }
    }
    if is_least(s, lo) && q.less(lo) {
        assert forall|x: K| #[trigger] s.contains(x) implies q.less(x) by {
            if x != lo {
                K::lemma_transitive(q, lo, x);
            }
        }
    }
    if is_greatest(s, hi) && hi.less(q) {
        assert forall|x: K| #[trigger] s.contains(x) implies x.less(q) by {
            if x != hi {
                K::lemma_transitive(x, hi, q);
            }
        }
    }
}

/// `s` is strictly increasing.
pub open spec fn strictly_sorted<K: OrderedKey>(s: Seq<K>) -> bool {
    forall|i: int, j: int| 0 <= i < j < s.len() ==> #[trigger] s[i].less(#[trigger] s[j])
}

/// `m` belongs to `s` and comes before every other member.
pub open spec fn is_least<K: OrderedKey>(s: Set<K>, m: K) -> bool {
    s.contains(m) && forall|x: K| #[trigger] s.contains(x) && x != m ==> m.less(x)
}

/// `m` belongs to `s` and comes after every other member.
pub open spec fn is_greatest<K: OrderedKey>(s: Set<K>, m: K) -> bool {
    s.contains(m) && forall|x: K| #[trigger] s.contains(x) && x != m ==> x.less(m)
}

/// Some member of `s` is at or above `q`.
pub open spec fn has_ceiling<K: OrderedKey>(s: Set<K>, q: K) -> bool {
    exists|x: K| #[trigger] s.contains(x) && !x.less(q)
}

/// Some member of `s` is at or below `q`.
pub open spec fn has_floor<K: OrderedKey>(s: Set<K>, q: K) -> bool {
    exists|x: K| #[trigger] s.contains(x) && !q.less(x)
}

/// `c` is the least member of `s` at or above `q`.
pub open spec fn is_ceiling<K: OrderedKey>(s: Set<K>, q: K, c: K) -> bool {
    &&& s.contains(c)
    &&& !c.less(q)
    &&& forall|x: K| #[trigger] s.contains(x) && !x.less(q) ==> !x.less(c)
}

/// `f` is the greatest member of `s` at or below `q`.
pub open spec fn is_floor<K: OrderedKey>(s: Set<K>, q: K, f: K) -> bool {
    &&& s.contains(f)
    &&& !q.less(f)
    &&& forall|x: K| #[trigger] s.contains(x) && !q.less(x) ==> !f.less(x)
}


/// `t` as a forest of at most one non-empty tree.
pub open spec fn non_empty<K>(t: Tree<K>) -> Seq<Tree<K>> {
    match t {
        Tree::Empty => Seq::empty(),
        Tree::Node { .. } => seq![t],
    }
}

/// The root keys of the (non-empty) trees of `fs`.
pub open spec fn root_values<K>(fs: Seq<Tree<K>>) -> Seq<K> {
    fs.map_values(|t: Tree<K>| t->value)
}

/// The tree rebuilt around `t` from the path down to it: each frame holds the
/// side taken (`true` for left), the key there and the subtree on the other
/// side; the first frame is the root.
pub open spec fn plug<K>(frames: Seq<(bool, K, Tree<K>)>, t: Tree<K>) -> Tree<K>
    decreases frames.len(),
{
    if frames.len() == 0 {
        t
    } else {
        let f = frames.last();
        plug(
            frames.drop_last(),
            if f.0 {
                Tree::Node { left: Box::new(t), value: f.1, right: Box::new(f.2) }
            } else {
                Tree::Node { left: Box::new(f.2), value: f.1, right: Box::new(t) }
            },
        )
    }
}

/// The non-empty children of the trees of `fs`, from left to right.
pub open spec fn children_of<K>(fs: Seq<Tree<K>>) -> Seq<Tree<K>>
    decreases fs.len(),
{
    if fs.len() == 0 {
        Seq::empty()
    } else {
        children_of(fs.drop_last()) + match fs.last() {
            Tree::Empty => Seq::empty(),
            Tree::Node { left, value: _, right } => non_empty(*left) + non_empty(*right),
        }
    }
}

/// The parent-child links that leave the trees of `fs`: for each, the link to
/// its left child and then the one to its right child, where they exist.
pub open spec fn links_of<K>(fs: Seq<Tree<K>>) -> Seq<(K, K)>
    decreases fs.len(),
{
    if fs.len() == 0 {
        Seq::empty()
    } else {
        links_of(fs.drop_last()) + match fs.last() {
            Tree::Empty => Seq::empty(),
            Tree::Node { left, value, right } => non_empty(*left).map_values(
                |c: Tree<K>| (value, c->value),
            ) + non_empty(*right).map_values(|c: Tree<K>| (value, c->value)),
        }
    }
}

/// The keys behind a sequence of pairs of shared references.
pub open spec fn deref_pairs<K>(s: Seq<(&K, &K)>) -> Seq<(K, K)> {
    s.map_values(|p: (&K, &K)| (*p.0, *p.1))
}

pub proof fn lemma_children_of_add<K>(a: Seq<Tree<K>>, b: Seq<Tree<K>>)
    ensures
        children_of(a + b) == children_of(a) + children_of(b),
        links_of(a + b) == links_of(a) + links_of(b),
    decreases b.len(),
{
    if b.len() == 0 {
        assert(a + b =~= a);
        assert(children_of(a) + children_of(b) =~= children_of(a));
        assert(links_of(a) + links_of(b) =~= links_of(a));
    } else {
        lemma_children_of_add(a, b.drop_last());
        assert((a + b).drop_last() =~= a + b.drop_last());
        assert((a + b).last() == b.last());
        assert(children_of(a + b) =~= children_of(a) + children_of(b));
        assert(links_of(a + b) =~= links_of(a) + links_of(b));
    }
}

impl<K: OrderedKey> Tree<K> {
    /// The keys stored in the tree.
    pub open spec fn keys(self) -> Set<K>
        decreases self,
    {
        match self {
            Tree::Empty => Set::empty(),
            Tree::Node { left, value, right } => left.keys().union(right.keys()).insert(value),
        }
    }

    /// The number of nodes.
    pub open spec fn size(self) -> nat
        decreases self,
    {
        match self {
            Tree::Empty => 0,
            Tree::Node { left, value: _, right } => left.size() + right.size() + 1,
        }
    }

    /// The number of levels: 0 for the empty tree, 1 for a single node.
    pub open spec fn levels(self) -> nat
        decreases self,
    {
        match self {
            Tree::Empty => 0,
            Tree::Node { left, value: _, right } => 1 + if left.levels() >= right.levels() {
                left.levels()
            } else {
                right.levels()
            },
        }
    }

    /// The number of edges on a longest path from the root down (0 when empty).
    pub open spec fn height(self) -> nat {
        if self.levels() == 0 {
            0
        } else {
            (self.levels() - 1) as nat
        }
    }

    /// The search-tree order: at every node, the keys on the left come strictly
    /// before it and the keys on the right strictly after it.
    pub open spec fn ordered(self) -> bool
        decreases self,
    {
        match self {
            Tree::Empty => true,
            Tree::Node { left, value, right } => {
                &&& forall|k: K| #[trigger] left.keys().contains(k) ==> k.less(value)
                &&& forall|k: K| #[trigger] right.keys().contains(k) ==> value.less(k)
                &&& left.ordered()
                &&& right.ordered()
            },
        }
    }

    /// The AVL balance: at every node the two subtrees differ in levels by at
    /// most one.
    pub open spec fn balanced(self) -> bool
        decreases self,
    {
        match self {
            Tree::Empty => true,
            Tree::Node { left, value: _, right } => {
                &&& left.levels() <= right.levels() + 1
                &&& right.levels() <= left.levels() + 1
                &&& left.balanced()
                &&& right.balanced()
            },
        }
    }

    /// A tree of one node.
    pub open spec fn leaf(v: K) -> Tree<K> {
        Tree::Node { left: Box::new(Tree::Empty), value: v, right: Box::new(Tree::Empty) }
    }

    /// The tree with `v` added as a new leaf at the end of its search path;
    /// a key that is present leaves the tree as it is.
    pub open spec fn insert_leaf(self, v: K) -> Tree<K>
        decreases self,
    {
        match self {
            Tree::Empty => Tree::leaf(v),
            Tree::Node { left, value, right } => if v.less(value) {
                Tree::Node { left: Box::new(left.insert_leaf(v)), value, right }
            } else if value.less(v) {
                Tree::Node { left, value, right: Box::new(right.insert_leaf(v)) }
            } else {
                self
            },
        }
    }

    /// The key at the end of the leftmost path.
    pub open spec fn leftmost(self) -> K
        decreases self,
    {
        match self {
            Tree::Empty => arbitrary(),
            Tree::Node { left, value, right: _ } => match *left {
                Tree::Empty => value,
                _ => left.leftmost(),
            },
        }
    }

    /// The key at the end of the rightmost path.
    pub open spec fn rightmost(self) -> K
        decreases self,
    {
        match self {
            Tree::Empty => arbitrary(),
            Tree::Node { left: _, value, right } => match *right {
                Tree::Empty => value,
                _ => right.rightmost(),
            },
        }
    }

    /// In an ordered tree the leftmost key is the least and the rightmost the
    /// greatest.
    pub proof fn lemma_extremes(self)
        requires
            self.ordered(),
            self is Node,
        ensures
            is_least(self.keys(), self.leftmost()),
            is_greatest(self.keys(), self.rightmost()),
        decreases self,
    {
        lemma_strict_order::<K>();
        if let Tree::Node { left, value, right } = self {
            assert(self.keys() == left.keys().union(right.keys()).insert(value));
            if let Tree::Node { .. } = *left {
                left.lemma_extremes();
                assert(left.keys().contains(left.leftmost()));
            }
            if let Tree::Node { .. } = *right {
                right.lemma_extremes();
                assert(right.keys().contains(right.rightmost()));
            }
        }
    }

    /// The tree with the node at the end of the leftmost path replaced by its
    /// right subtree.
    pub open spec fn without_leftmost(self) -> Tree<K>
        decreases self,
    {
        match self {
            Tree::Empty => Tree::Empty,
            Tree::Node { left, value, right } => match *left {
                Tree::Empty => *right,
                _ => Tree::Node { left: Box::new(left.without_leftmost()), value, right },
            },
        }
    }

    /// The tree with `v` removed: the node that holds it is replaced by its
    /// only child, or, with two children, takes the key of its in-order
    /// successor, which is spliced out of the right subtree. A key that is
    /// absent leaves the tree as it is.
    pub open spec fn remove_splice(self, v: K) -> Tree<K>
        decreases self,
    {
        match self {
            Tree::Empty => Tree::Empty,
            Tree::Node { left, value, right } => if v.less(value) {
                Tree::Node { left: Box::new(left.remove_splice(v)), value, right }
            } else if value.less(v) {
                Tree::Node { left, value, right: Box::new(right.remove_splice(v)) }
            } else if *left == Tree::<K>::Empty {
                *right
            } else if *right == Tree::<K>::Empty {
                *left
            } else {
                Tree::Node {
                    left,
                    value: right.leftmost(),
                    right: Box::new(right.without_leftmost()),
                }
            },
        }
    }

    /// The levels of the left subtree (0 for an empty tree).
    pub open spec fn left_levels(self) -> nat {
        match self {
            Tree::Empty => 0,
            Tree::Node { left, value: _, right: _ } => left.levels(),
        }
    }

    /// The levels of the right subtree (0 for an empty tree).
    pub open spec fn right_levels(self) -> nat {
        match self {
            Tree::Empty => 0,
            Tree::Node { left: _, value: _, right } => right.levels(),
        }
    }

    /// Right rotation: the left child becomes the root and the old root its
    /// right child (a tree without a left child is left as it is).
    pub open spec fn rotate_right(self) -> Tree<K> {
        match self {
            Tree::Node { left, value: y, right: c } => match *left {
                Tree::Node { left: a, value: x, right: b } => Tree::Node {
                    left: a,
                    value: x,
                    right: Box::new(Tree::Node { left: b, value: y, right: c }),
                },
                Tree::Empty => self,
            },
            Tree::Empty => self,
        }
    }

    /// Left rotation: the right child becomes the root and the old root its
    /// left child (a tree without a right child is left as it is).
    pub open spec fn rotate_left(self) -> Tree<K> {
        match self {
            Tree::Node { left: a, value: x, right } => match *right {
                Tree::Node { left: b, value: y, right: c } => Tree::Node {
                    left: Box::new(Tree::Node { left: a, value: x, right: b }),
                    value: y,
                    right: c,
                },
                Tree::Empty => self,
            },
            Tree::Empty => self,
        }
    }

    /// The AVL repair of a node: when one side is more than one level taller,
    /// a single rotation if its child does not lean inwards, else a rotation
    /// of that child and then of the node; otherwise the node as it is.
    pub open spec fn avl_rebalance(self) -> Tree<K> {
        match self {
            Tree::Empty => self,
            Tree::Node { left, value, right } => if left.levels() > right.levels() + 1 {
                if left.left_levels() >= left.right_levels() {
                    self.rotate_right()
                } else {
                    Tree::Node { left: Box::new(left.rotate_left()), value, right }.rotate_right()
                }
            } else if right.levels() > left.levels() + 1 {
                if right.right_levels() >= right.left_levels() {
                    self.rotate_left()
                } else {
                    Tree::Node { left, value, right: Box::new(right.rotate_right()) }.rotate_left()
                }
            } else {
                self
            },
        }
    }

    /// AVL insertion: a new leaf on the search path, every node on the way
    /// back up repaired; a key that is present leaves the tree as it is.
    pub open spec fn avl_insert(self, v: K) -> Tree<K>
        decreases self,
    {
        match self {
            Tree::Empty => Tree::leaf(v),
            Tree::Node { left, value, right } => if v.less(value) {
                Tree::Node { left: Box::new(left.avl_insert(v)), value, right }.avl_rebalance()
            } else if value.less(v) {
                Tree::Node { left, value, right: Box::new(right.avl_insert(v)) }.avl_rebalance()
            } else {
                self
            },
        }
    }

    /// The tree without its leftmost node, every node on the way back up
    /// repaired.
    pub open spec fn avl_without_leftmost(self) -> Tree<K>
        decreases self,
    {
        match self {
            Tree::Empty => Tree::Empty,
            Tree::Node { left, value, right } => match *left {
                Tree::Empty => *right,
                _ => Tree::Node {
                    left: Box::new(left.avl_without_leftmost()),
                    value,
                    right,
                }.avl_rebalance(),
            },
        }
    }

    /// AVL removal: the node holding `v` is replaced by its only child, or,
    /// with two children, takes the least key of its right subtree, which is
    /// taken out of it; every node on the way back up is repaired.
    pub open spec fn avl_remove(self, v: K) -> Tree<K>
        decreases self,
    {
        match self {
            Tree::Empty => Tree::Empty,
            Tree::Node { left, value, right } => if v.less(value) {
                Tree::Node { left: Box::new(left.avl_remove(v)), value, right }.avl_rebalance()
            } else if value.less(v) {
                Tree::Node { left, value, right: Box::new(right.avl_remove(v)) }.avl_rebalance()
            } else if *left == Tree::<K>::Empty {
                *right
            } else if *right == Tree::<K>::Empty {
                *left
            } else {
                Tree::Node {
                    left,
                    value: right.leftmost(),
                    right: Box::new(right.avl_without_leftmost()),
                }.avl_rebalance()
            },
        }
    }

    /// Left subtree, node, right subtree.
    pub open spec fn in_order(self) -> Seq<K>
        decreases self,
    {
        match self {
            Tree::Empty => Seq::empty(),
            Tree::Node { left, value, right } => left.in_order() + seq![value]
                + right.in_order(),
        }
    }

    /// Node, left subtree, right subtree.
    pub open spec fn pre_order(self) -> Seq<K>
        decreases self,
    {
        match self {
            Tree::Empty => Seq::empty(),
            Tree::Node { left, value, right } => seq![value] + left.pre_order()
                + right.pre_order(),
        }
    }

    /// Left subtree, right subtree, node.
    pub open spec fn post_order(self) -> Seq<K>
        decreases self,
    {
        match self {
            Tree::Empty => Seq::empty(),
            Tree::Node { left, value, right } => left.post_order() + right.post_order()
                + seq![value],
        }
    }

    /// The non-empty subtrees whose roots lie at depth `d`, from left to right.
    pub open spec fn subtrees_at(self, d: nat) -> Seq<Tree<K>>
        decreases self,
    {
        match self {
            Tree::Empty => Seq::empty(),
            Tree::Node { left, value: _, right } => if d == 0 {
                seq![self]
            } else {
                left.subtrees_at((d - 1) as nat) + right.subtrees_at((d - 1) as nat)
            },
        }
    }

    /// The keys at depth `d`, from left to right.
    pub open spec fn level(self, d: nat) -> Seq<K> {
        root_values(self.subtrees_at(d))
    }

    /// The keys of the first `n` levels, level by level, each from left to right.
    pub open spec fn first_levels(self, n: nat) -> Seq<K>
        decreases n,
    {
        if n == 0 {
            Seq::empty()
        } else {
            self.first_levels((n - 1) as nat) + self.level((n - 1) as nat)
        }
    }

    /// Breadth-first order: level by level, each from left to right.
    pub open spec fn level_order(self) -> Seq<K> {
        self.first_levels(self.levels())
    }

    /// The links of the tree level by level, each level from left to right.
    pub open spec fn first_links(self, n: nat) -> Seq<(K, K)>
        decreases n,
    {
        if n == 0 {
            Seq::empty()
        } else {
            self.first_links((n - 1) as nat) + links_of(self.subtrees_at((n - 1) as nat))
        }
    }

    /// Every parent-child link, in breadth-first order of the parents.
    pub open spec fn connections(self) -> Seq<(K, K)> {
        self.first_links(self.levels())
    }

    pub proof fn lemma_levels_le_size(self)
        ensures
            self.levels() <= self.size(),
        decreases self,
    {
        if let Tree::Node { left, value: _, right } = self {
            left.lemma_levels_le_size();
            right.lemma_levels_le_size();
        }
    }

    /// One level further down lie the children of the subtrees of this level;
    /// the levels run out exactly at the tree's number of levels.
    pub proof fn lemma_subtrees_at(self, d: nat)
        ensures
            self.subtrees_at(d + 1) == children_of(self.subtrees_at(d)),
            self.subtrees_at(d).len() == 0 <==> d >= self.levels(),
            forall|i: int| 0 <= i < self.subtrees_at(d).len() ==> #[trigger] self.subtrees_at(d)[i] is Node,
        decreases self,
    {
        if let Tree::Node { left, value: _, right } = self {
            if d == 0 {
                assert(seq![self].drop_last() =~= Seq::<Tree<K>>::empty());
                assert(seq![self].last() == self);
                assert(children_of(Seq::<Tree<K>>::empty()) == Seq::<Tree<K>>::empty());
                assert(children_of(seq![self]) =~= non_empty(*left) + non_empty(*right));
                match *left {
                    Tree::Empty => {},
                    Tree::Node { .. } => {},
                }
                match *right {
                    Tree::Empty => {},
                    Tree::Node { .. } => {},
                }
                assert(left.subtrees_at(0) == non_empty(*left));
                assert(right.subtrees_at(0) == non_empty(*right));
            } else {
                left.lemma_subtrees_at((d - 1) as nat);
                right.lemma_subtrees_at((d - 1) as nat);
                lemma_children_of_add(left.subtrees_at((d - 1) as nat), right.subtrees_at((d - 1) as nat));
                let a = left.subtrees_at((d - 1) as nat);
                let b = right.subtrees_at((d - 1) as nat);
                assert forall|i: int| 0 <= i < self.subtrees_at(d).len() implies #[trigger] self.subtrees_at(d)[i] is Node by {
                    if i < a.len() {
                        assert(self.subtrees_at(d)[i] == a[i]);
                    } else {
                        assert(self.subtrees_at(d)[i] == b[i - a.len()]);
                    }
                }
            }
        }
    }
}

impl<K: OrderedKey> Tree<K> {
    pub proof fn lemma_keys_finite(self)
        ensures
            self.keys().finite(),
        decreases self,
    {
        if let Tree::Node { left, value: _, right } = self {
            left.lemma_keys_finite();
            right.lemma_keys_finite();
        }
    }

    /// In an ordered tree each node holds a distinct key.
    pub proof fn lemma_size(self)
        requires
            self.ordered(),
        ensures
            self.keys().len() == self.size(),
        decreases self,
    {
        if let Tree::Node { left, value, right } = self {
            left.lemma_size();
            right.lemma_size();
            left.lemma_keys_finite();
            right.lemma_keys_finite();
            lemma_strict_order::<K>();
            assert(left.keys().disjoint(right.keys()));
            vstd::set_lib::lemma_set_disjoint_lens(left.keys(), right.keys());
            assert(!left.keys().union(right.keys()).contains(value));
        }
    }

    /// The traversals list every key once: as many entries as nodes, and the
    /// keys of the tree and nothing else.
    pub proof fn lemma_traversals(self)
        ensures
            self.in_order().len() == self.size(),
            self.pre_order().len() == self.size(),
            self.post_order().len() == self.size(),
            forall|k: K| #[trigger] self.in_order().contains(k) <==> self.keys().contains(k),
            forall|k: K| #[trigger] self.pre_order().contains(k) <==> self.keys().contains(k),
            forall|k: K| #[trigger] self.post_order().contains(k) <==> self.keys().contains(k),
        decreases self,
    {
        broadcast use vstd::seq_lib::lemma_seq_concat_contains_all_elements;

        if let Tree::Node { left, value, right } = self {
            left.lemma_traversals();
            right.lemma_traversals();
            assert(seq![value][0] == value);
        }
    }

    /// The in-order traversal of an ordered tree is strictly increasing.
    pub proof fn lemma_in_order_sorted(self)
        requires
            self.ordered(),
        ensures
            strictly_sorted(self.in_order()),
        decreases self,
    {
        if let Tree::Node { left, value, right } = self {
            left.lemma_in_order_sorted();
            right.lemma_in_order_sorted();
            left.lemma_traversals();
            right.lemma_traversals();
            lemma_strict_order::<K>();
            let l = left.in_order();
            let r = right.in_order();
            let s = self.in_order();
            assert forall|i: int, j: int| 0 <= i < j < s.len() implies #[trigger] s[i].less(
                #[trigger] s[j],
            ) by {
                if j < l.len() {
                    assert(s[i] == l[i] && s[j] == l[j]);
                } else if i > l.len() {
                    assert(s[i] == r[i - l.len() - 1] && s[j] == r[j - l.len() - 1]);
                } else {
                    if i < l.len() {
                        assert(s[i] == l[i]);
                        assert(l.contains(l[i]));
                    } else {
                        assert(s[i] == value);
                    }
                    if j == l.len() {
                        assert(s[j] == value);
                    } else {
                        assert(s[j] == r[j - l.len() - 1]);
                        assert(r.contains(r[j - l.len() - 1]));
                    }
                }
            }
        }
    }

    /// Two subtrees with the same keys, in-order sequence, size and order are
    /// interchangeable under a node.
    pub proof fn lemma_same_content(l1: Tree<K>, l2: Tree<K>, y: K, c: Tree<K>)
        requires
            l1.keys() == l2.keys(),
            l1.in_order() == l2.in_order(),
            l1.size() == l2.size(),
            l1.ordered() == l2.ordered(),
        ensures
            ({
                let t1 = Tree::Node { left: Box::new(l1), value: y, right: Box::new(c) };
                let t2 = Tree::Node { left: Box::new(l2), value: y, right: Box::new(c) };
                &&& t1.keys() == t2.keys()
                &&& t1.in_order() == t2.in_order()
                &&& t1.size() == t2.size()
                &&& t1.ordered() == t2.ordered()
            }),
            ({
                let t1 = Tree::Node { left: Box::new(c), value: y, right: Box::new(l1) };
                let t2 = Tree::Node { left: Box::new(c), value: y, right: Box::new(l2) };
                &&& t1.keys() == t2.keys()
                &&& t1.in_order() == t2.in_order()
                &&& t1.size() == t2.size()
                &&& t1.ordered() == t2.ordered()
            }),
    {
    }

    /// A single rotation repairs a node whose left side is two levels taller,
    /// when the left child does not lean right.
    pub proof fn lemma_balance_single(a: Tree<K>, x: K, b: Tree<K>, y: K, c: Tree<K>)
        requires
            a.balanced(),
            b.balanced(),
            c.balanced(),
            b.levels() <= a.levels(),
            a.levels() <= b.levels() + 1,
            a.levels() == c.levels() + 1,
        ensures
            ({
                let before = Tree::Node {
                    left: Box::new(Tree::Node { left: Box::new(a), value: x, right: Box::new(b) }),
                    value: y,
                    right: Box::new(c),
                };
                let after = Tree::Node {
                    left: Box::new(a),
                    value: x,
                    right: Box::new(Tree::Node { left: Box::new(b), value: y, right: Box::new(c) }),
                };
                &&& after.balanced()
                &&& after.levels() == before.levels() || after.levels() + 1 == before.levels()
            }),
    {
        let inner_l = Tree::Node { left: Box::new(a), value: x, right: Box::new(b) };
        let inner_r = Tree::Node { left: Box::new(b), value: y, right: Box::new(c) };
        assert(inner_l.levels() == a.levels() + 1);
        assert(inner_r.levels() == b.levels() + 1);
        assert(inner_r.balanced());
    }

    /// The mirror image of `lemma_balance_single`.
    pub proof fn lemma_balance_single_mirror(a: Tree<K>, x: K, b: Tree<K>, y: K, c: Tree<K>)
        requires
            a.balanced(),
            b.balanced(),
            c.balanced(),
            b.levels() <= c.levels(),
            c.levels() <= b.levels() + 1,
            c.levels() == a.levels() + 1,
        ensures
            ({
                let before = Tree::Node {
                    left: Box::new(a),
                    value: x,
                    right: Box::new(Tree::Node { left: Box::new(b), value: y, right: Box::new(c) }),
                };
                let after = Tree::Node {
                    left: Box::new(Tree::Node { left: Box::new(a), value: x, right: Box::new(b) }),
                    value: y,
                    right: Box::new(c),
                };
                &&& after.balanced()
                &&& after.levels() == before.levels() || after.levels() + 1 == before.levels()
            }),
    {
        let inner_l = Tree::Node { left: Box::new(a), value: x, right: Box::new(b) };
        let inner_r = Tree::Node { left: Box::new(b), value: y, right: Box::new(c) };
        assert(inner_l.levels() == b.levels() + 1);
        assert(inner_r.levels() == c.levels() + 1);
        assert(inner_l.balanced());
    }

    /// A double rotation repairs a node whose left side is two levels taller,
    /// when the left child leans right; the result is one level lower.
    pub proof fn lemma_balance_double(
        a: Tree<K>,
        x: K,
        b1: Tree<K>,
        z: K,
        b2: Tree<K>,
        y: K,
        c: Tree<K>,
    )
        requires
            a.balanced(),
            b1.balanced(),
            b2.balanced(),
            c.balanced(),
            b1.levels() <= b2.levels() + 1,
            b2.levels() <= b1.levels() + 1,
            a.levels() == c.levels(),
            a.levels() + 1 == (Tree::Node { left: Box::new(b1), value: z, right: Box::new(b2) }).levels(),
        ensures
            ({
                let before = Tree::Node {
                    left: Box::new(
                        Tree::Node {
                            left: Box::new(a),
                            value: x,
                            right: Box::new(Tree::Node { left: Box::new(b1), value: z, right: Box::new(b2) }),
                        },
                    ),
                    value: y,
                    right: Box::new(c),
                };
                let after = Tree::Node {
                    left: Box::new(Tree::Node { left: Box::new(a), value: x, right: Box::new(b1) }),
                    value: z,
                    right: Box::new(Tree::Node { left: Box::new(b2), value: y, right: Box::new(c) }),
                };
                &&& after.balanced()
                &&& after.levels() + 1 == before.levels()
            }),
    {
        let mid = Tree::Node { left: Box::new(b1), value: z, right: Box::new(b2) };
        let old_l = Tree::Node { left: Box::new(a), value: x, right: Box::new(mid) };
        let new_l = Tree::Node { left: Box::new(a), value: x, right: Box::new(b1) };
        let new_r = Tree::Node { left: Box::new(b2), value: y, right: Box::new(c) };
        assert(old_l.levels() == mid.levels() + 1);
        assert(new_l.levels() == a.levels() + 1);
        assert(new_r.levels() == c.levels() + 1);
        assert(new_l.balanced());
        assert(new_r.balanced());
    }

    /// The mirror image of `lemma_balance_double`.
    pub proof fn lemma_balance_double_mirror(
        a: Tree<K>,
        x: K,
        b1: Tree<K>,
        z: K,
        b2: Tree<K>,
        y: K,
        c: Tree<K>,
    )
        requires
            a.balanced(),
            b1.balanced(),
            b2.balanced(),
            c.balanced(),
            b1.levels() <= b2.levels() + 1,
            b2.levels() <= b1.levels() + 1,
            a.levels() == c.levels(),
            c.levels() + 1 == (Tree::Node { left: Box::new(b1), value: z, right: Box::new(b2) }).levels(),
        ensures
            ({
                let before = Tree::Node {
                    left: Box::new(a),
                    value: x,
                    right: Box::new(
                        Tree::Node {
                            left: Box::new(Tree::Node { left: Box::new(b1), value: z, right: Box::new(b2) }),
                            value: y,
                            right: Box::new(c),
                        },
                    ),
                };
                let after = Tree::Node {
                    left: Box::new(Tree::Node { left: Box::new(a), value: x, right: Box::new(b1) }),
                    value: z,
                    right: Box::new(Tree::Node { left: Box::new(b2), value: y, right: Box::new(c) }),
                };
                &&& after.balanced()
                &&& after.levels() + 1 == before.levels()
            }),
    {
        let mid = Tree::Node { left: Box::new(b1), value: z, right: Box::new(b2) };
        let old_r = Tree::Node { left: Box::new(mid), value: y, right: Box::new(c) };
        let new_l = Tree::Node { left: Box::new(a), value: x, right: Box::new(b1) };
        let new_r = Tree::Node { left: Box::new(b2), value: y, right: Box::new(c) };
        assert(old_r.levels() == mid.levels() + 1);
        assert(new_l.levels() == a.levels() + 1);
        assert(new_r.levels() == c.levels() + 1);
        assert(new_l.balanced());
        assert(new_r.balanced());
    }

    /// An AVL-balanced tree with `n` nodes has at most `2*log2(n + 1)` levels:
    /// `2^levels <= (n + 1)^2`.
    pub proof fn lemma_balanced_levels(self)
        requires
            self.balanced(),
        ensures
            exp2(self.levels()) <= (self.size() + 1) * (self.size() + 1),
        decreases self,
    {
        if self is Empty {
            assert(exp2(0) == 1);
            assert(self.levels() == 0 && self.size() == 0);
            let n = self.size();
            assert((n + 1) * (n + 1) == 1) by (nonlinear_arith)
                requires
                    n == 0,
            ;
        }
        if let Tree::Node { left, value: _, right } = self {
            left.lemma_balanced_levels();
            right.lemma_balanced_levels();
            let h = self.levels();
            let a = left.size() + 1;
            let b = right.size() + 1;
            assert(self.size() + 1 == a + b);
            if h == 1 {
                assert(left.levels() == 0 && right.levels() == 0);
                assert(*left == Tree::<K>::Empty) by {
                    if let Tree::Node { .. } = *left {
                        assert(left.levels() >= 1);
                    }
                }
                assert(*right == Tree::<K>::Empty) by {
                    if let Tree::Node { .. } = *right {
                        assert(right.levels() >= 1);
                    }
                }
                assert(exp2(1) == 2);
                assert(a == 1 && b == 1);
                assert((a + b) * (a + b) == 4) by (nonlinear_arith)
                    requires
                        a == 1,
                        b == 1,
                ;
            } else {
                let g = (h - 2) as nat;
                lemma_exp2_monotonic(g, left.levels());
                lemma_exp2_monotonic(g, right.levels());
                let m = if a <= b {
                    a
                } else {
                    b
                };
                assert(exp2(g) <= m * m);
                assert(a * b >= m * m) by (nonlinear_arith)
                    requires
                        m <= a,
                        m <= b,
                        0 <= m,
                ;
                assert((a + b) * (a + b) >= 4 * (a * b)) by (nonlinear_arith);
                assert(exp2(h) == 4 * exp2(g)) by {
                    assert(exp2(h) == 2 * exp2((h - 1) as nat));
                    assert(exp2((h - 1) as nat) == 2 * exp2(g));
                }
                assert(4 * exp2(g) <= 4 * (m * m));
                assert(exp2(h) <= (a + b) * (a + b));
                assert(h == self.levels());
            }
            assert(exp2(h) <= (self.size() + 1) * (self.size() + 1));
        }
    }

    /// Adding a leaf keeps an ordered tree ordered, adds exactly its key, and
    /// changes nothing when the key is present.
    pub proof fn lemma_insert_leaf(self, v: K)
        requires
            self.ordered(),
        ensures
            self.insert_leaf(v).ordered(),
            self.insert_leaf(v).keys() == self.keys().insert(v),
            self.keys().contains(v) ==> self.insert_leaf(v) == self,
        decreases self,
    {
        lemma_strict_order::<K>();
        match self {
            Tree::Empty => {
                let e = Tree::<K>::Empty;
                assert(e.keys() == Set::<K>::empty());
                assert(Tree::<K>::leaf(v).keys() == e.keys().union(e.keys()).insert(v));
                assert(Tree::<K>::leaf(v).keys() =~= Set::<K>::empty().insert(v));
            },
            Tree::Node { left, value, right } => {
                if v.less(value) {
                    left.lemma_insert_leaf(v);
                    assert(!right.keys().contains(v));
                    assert(self.insert_leaf(v).keys() =~= self.keys().insert(v));
                } else if value.less(v) {
                    right.lemma_insert_leaf(v);
                    assert(!left.keys().contains(v));
                    assert(self.insert_leaf(v).keys() =~= self.keys().insert(v));
                } else {
                    assert(self.keys() =~= self.keys().insert(v));
                }
            },
        }
    }

    /// Splicing out the leftmost node of an ordered tree removes exactly the
    /// least key and keeps the order.
    pub proof fn lemma_without_leftmost(self)
        requires
            self.ordered(),
            self is Node,
        ensures
            self.without_leftmost().ordered(),
            self.without_leftmost().keys() == self.keys().remove(self.leftmost()),
            self.keys().contains(self.leftmost()),
        decreases self,
    {
        lemma_strict_order::<K>();
        self.lemma_extremes();
        if let Tree::Node { left, value, right } = self {
            match *left {
                Tree::Empty => {
                    assert(left.keys() =~= Set::<K>::empty());
                    assert(!right.keys().contains(value));
                    assert(right.keys() =~= self.keys().remove(value));
                },
                Tree::Node { .. } => {
                    left.lemma_without_leftmost();
                    let m = left.leftmost();
                    assert(m.less(value));
                    assert(!right.keys().contains(m));
                    assert(self.without_leftmost().keys() =~= self.keys().remove(m));
                },
            }
        }
    }

    /// Removing with a successor splice keeps an ordered tree ordered, removes
    /// exactly the key, and changes nothing when the key is absent.
    pub proof fn lemma_remove_splice(self, v: K)
        requires
            self.ordered(),
        ensures
            self.remove_splice(v).ordered(),
            self.remove_splice(v).keys() == self.keys().remove(v),
            !self.keys().contains(v) ==> self.remove_splice(v) == self,
        decreases self,
    {
        lemma_strict_order::<K>();
        match self {
            Tree::Empty => {
                assert(self.keys() =~= self.keys().remove(v));
            },
            Tree::Node { left, value, right } => {
                if v.less(value) {
                    left.lemma_remove_splice(v);
                    assert(!right.keys().contains(v));
                    assert forall|k: K| #[trigger] left.remove_splice(v).keys().contains(k) implies k.less(value) by {
                        assert(left.keys().contains(k));
                    }
                    assert(self.remove_splice(v).keys() =~= self.keys().remove(v));
                } else if value.less(v) {
                    right.lemma_remove_splice(v);
                    assert(!left.keys().contains(v));
                    assert forall|k: K| #[trigger] right.remove_splice(v).keys().contains(k) implies value.less(k) by {
                        assert(right.keys().contains(k));
                    }
                    assert(self.remove_splice(v).keys() =~= self.keys().remove(v));
                } else {
                    assert(!left.keys().contains(v));
                    assert(!right.keys().contains(v));
                    if *left == Tree::<K>::Empty {
                        assert(right.keys() =~= self.keys().remove(v));
                    } else if *right == Tree::<K>::Empty {
                        assert(left.keys() =~= self.keys().remove(v));
                    } else {
                        right.lemma_without_leftmost();
                        let m = right.leftmost();
                        assert(v.less(m));
                        assert forall|k: K| #[trigger] left.keys().contains(k) implies k.less(m) by {
                            K::lemma_transitive(k, v, m);
                        }
                        right.lemma_extremes();
                        assert forall|k: K| #[trigger] right.without_leftmost().keys().contains(k) implies m.less(k) by {
                            assert(right.keys().contains(k));
                            assert(k != m);
                        }
                        assert(self.remove_splice(v).keys() =~= self.keys().remove(v));
                    }
                }
            },
        }
    }

    /// A rotation keeps the keys, the in-order sequence and the order.
    pub proof fn lemma_rotation(a: Tree<K>, x: K, b: Tree<K>, y: K, c: Tree<K>)
        ensures
            ({
                let lower_left = Tree::Node {
                    left: Box::new(Tree::Node { left: Box::new(a), value: x, right: Box::new(b) }),
                    value: y,
                    right: Box::new(c),
                };
                let lower_right = Tree::Node {
                    left: Box::new(a),
                    value: x,
                    right: Box::new(Tree::Node { left: Box::new(b), value: y, right: Box::new(c) }),
                };
                &&& lower_left.keys() == lower_right.keys()
                &&& lower_left.in_order() == lower_right.in_order()
                &&& lower_left.size() == lower_right.size()
                &&& lower_left.ordered() <==> lower_right.ordered()
            }),
    {
        let lower_left = Tree::Node {
            left: Box::new(Tree::Node { left: Box::new(a), value: x, right: Box::new(b) }),
            value: y,
            right: Box::new(c),
        };
        let lower_right = Tree::Node {
            left: Box::new(a),
            value: x,
            right: Box::new(Tree::Node { left: Box::new(b), value: y, right: Box::new(c) }),
        };
        let inner_l = Tree::Node { left: Box::new(a), value: x, right: Box::new(b) };
        let inner_r = Tree::Node { left: Box::new(b), value: y, right: Box::new(c) };
        assert(inner_l.keys() == a.keys().union(b.keys()).insert(x));
        assert(inner_r.keys() == b.keys().union(c.keys()).insert(y));
        assert(inner_l.in_order() == a.in_order() + seq![x] + b.in_order());
        assert(inner_r.in_order() == b.in_order() + seq![y] + c.in_order());
        assert(inner_l.ordered() == (
            (forall|k: K| #[trigger] a.keys().contains(k) ==> k.less(x))
            && (forall|k: K| #[trigger] b.keys().contains(k) ==> x.less(k))
            && a.ordered() && b.ordered()));
        assert(inner_r.ordered() == (
            (forall|k: K| #[trigger] b.keys().contains(k) ==> k.less(y))
            && (forall|k: K| #[trigger] c.keys().contains(k) ==> y.less(k))
            && b.ordered() && c.ordered()));
        assert(inner_l.size() == a.size() + b.size() + 1);
        assert(inner_r.size() == b.size() + c.size() + 1);
        lemma_strict_order::<K>();
        assert(lower_left.keys() =~= lower_right.keys());
        assert(lower_left.in_order() =~= lower_right.in_order());
        if lower_left.ordered() {
            assert(inner_l.keys().contains(x));
            assert(forall|k: K| #[trigger] b.keys().contains(k) ==> inner_l.keys().contains(k));
            assert(forall|k: K| #[trigger] inner_r.keys().contains(k) ==> x.less(k));
            assert(inner_r.ordered());
            assert(lower_right.ordered());
        }
        if lower_right.ordered() {
            assert(inner_r.keys().contains(y));
            assert(forall|k: K| #[trigger] b.keys().contains(k) ==> inner_r.keys().contains(k));
            assert(forall|k: K| #[trigger] inner_l.keys().contains(k) ==> k.less(y));
            assert(inner_l.ordered());
            assert(lower_left.ordered());
        }
    }
}

} // verus!
