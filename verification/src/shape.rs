//! The outline of a search tree: where the keys sit, without the records.
//!
//! A `Shape` is what the tree engine promises about its own structure. It is
//! only ever used in specifications.

use vstd::arithmetic::power2::{lemma_pow2_unfold, pow2};
use vstd::prelude::*;
use crate::listing::strictly_ascending;

verus! {

/// The structure of a binary tree of keys.
pub enum Shape {
    /// No node at all.
    Empty,
    /// A node holding `key` above two subtrees.
    Fork { left: Box<Shape>, key: i32, right: Box<Shape> },
}

/// The tree with `key` at the root above `left` and `right`.
pub open spec fn fork(left: Shape, key: i32, right: Shape) -> Shape {
    Shape::Fork { left: Box::new(left), key, right: Box::new(right) }
}

/// One change to the keys of a tree.
pub enum Change {
    /// The key is inserted.
    Insert(i32),
    /// The key is deleted.
    Delete(i32),
}

/// The larger of two heights.
pub open spec fn taller(a: nat, b: nat) -> nat {
    if a >= b {
        a
    } else {
        b
    }
}

/// The fewest nodes a balanced tree of the given height can have.
pub open spec fn fewest_nodes(height: nat) -> nat
    decreases height,
{
    if height == 0 {
        0
    } else if height == 1 {
        1
    } else {
        1 + fewest_nodes((height - 1) as nat) + fewest_nodes((height - 2) as nat)
    }
}

/// A higher balanced tree needs at least as many nodes as a lower one.
pub proof fn lemma_fewest_nodes_grows(lower: nat, higher: nat)
    requires
        lower <= higher,
    ensures
        fewest_nodes(lower) <= fewest_nodes(higher),
    decreases higher,
{
    if lower < higher {
        lemma_fewest_nodes_grows(lower, (higher - 1) as nat);
    }
}

/// Two more levels at least double the nodes a balanced tree needs, counting
/// one more than there are.
pub proof fn lemma_fewest_nodes_doubles(height: nat)
    ensures
        pow2(height / 2) <= fewest_nodes(height) + 1,
    decreases height,
{
    if height < 2 {
        lemma_pow2_unfold(1);
        assert(height / 2 == 0);
        assert(pow2(0) == 1) by {
            vstd::arithmetic::power2::lemma2_to64();
        }
    } else {
        lemma_fewest_nodes_doubles((height - 2) as nat);
        lemma_fewest_nodes_grows((height - 2) as nat, (height - 1) as nat);
        assert((height - 2) / 2 == height / 2 - 1);
        lemma_pow2_unfold(height / 2);
    }
}

impl Shape {
    /// The number of nodes on the longest path from the root to a leaf.
    pub open spec fn height(self) -> nat
        decreases self,
    {
        match self {
            Shape::Empty => 0,
            Shape::Fork { left, key, right } => 1 + taller(left.height(), right.height()),
        }
    }

    /// The number of nodes.
    pub open spec fn size(self) -> nat
        decreases self,
    {
        match self {
            Shape::Empty => 0,
            Shape::Fork { left, key, right } => 1 + left.size() + right.size(),
        }
    }

    /// The keys that occur anywhere in the tree.
    pub open spec fn keys(self) -> Set<i32>
        decreases self,
    {
        match self {
            Shape::Empty => Set::empty(),
            Shape::Fork { left, key, right } => left.keys().union(right.keys()).insert(key),
        }
    }

    /// Height of the left subtree minus height of the right subtree, at the
    /// root.
    pub open spec fn balance_factor(self) -> int {
        match self {
            Shape::Empty => 0,
            Shape::Fork { left, key, right } => left.height() - right.height(),
        }
    }

    /// Every node's balance factor is -1, 0 or 1.
    pub open spec fn is_balanced(self) -> bool
        decreases self,
    {
        match self {
            Shape::Empty => true,
            Shape::Fork { left, key, right } => {
                &&& left.is_balanced()
                &&& right.is_balanced()
                &&& -1 <= self.balance_factor() <= 1
            },
        }
    }

    /// Every node's key is greater than all keys to its left and smaller than
    /// all keys to its right.
    pub open spec fn is_search_ordered(self) -> bool
        decreases self,
    {
        match self {
            Shape::Empty => true,
            Shape::Fork { left, key, right } => {
                &&& left.is_search_ordered()
                &&& right.is_search_ordered()
                &&& forall|k: i32| left.keys().contains(k) ==> k < key
                &&& forall|k: i32| right.keys().contains(k) ==> key < k
            },
        }
    }

    /// The tree is a search tree and balanced at every node.
    pub open spec fn is_avl(self) -> bool {
        self.is_search_ordered() && self.is_balanced()
    }

    /// The tree after its left child was lifted above its root. A tree
    /// without a left child stays as it is.
    pub open spec fn rotated_right(self) -> Shape {
        match self {
            Shape::Empty => self,
            Shape::Fork { left, key, right } => match *left {
                Shape::Empty => self,
                Shape::Fork { left: outer, key: pivot, right: inner } => fork(
                    *outer,
                    pivot,
                    fork(*inner, key, *right),
                ),
            },
        }
    }

    /// The tree after its right child was lifted above its root. A tree
    /// without a right child stays as it is.
    pub open spec fn rotated_left(self) -> Shape {
        match self {
            Shape::Empty => self,
            Shape::Fork { left, key, right } => match *right {
                Shape::Empty => self,
                Shape::Fork { left: inner, key: pivot, right: outer } => fork(
                    fork(*left, key, *inner),
                    pivot,
                    *outer,
                ),
            },
        }
    }

    /// The tree after balance was restored at its root.
    ///
    /// A root whose left subtree is more than one level higher than its
    /// right is rotated right, after its left child was rotated left if that
    /// child leans to the right. The mirror image holds for a root whose
    /// right subtree is higher. Any other tree stays as it is.
    pub open spec fn rebalanced(self) -> Shape {
        match self {
            Shape::Empty => self,
            Shape::Fork { left, key, right } => {
                if self.balance_factor() > 1 {
                    let heavy = if left.balance_factor() < 0 {
                        left.rotated_left()
                    } else {
                        *left
                    };
                    fork(heavy, key, *right).rotated_right()
                } else if self.balance_factor() < -1 {
                    let heavy = if right.balance_factor() > 0 {
                        right.rotated_right()
                    } else {
                        *right
                    };
                    fork(*left, key, heavy).rotated_left()
                } else {
                    self
                }
            },
        }
    }

    /// The tree after `key` was inserted.
    ///
    /// A key that is present leaves the tree as it is. A new key becomes a
    /// leaf where a search for it ends, and balance is restored at every
    /// node from there up to the root.
    pub open spec fn inserted(self, key: i32) -> Shape
        decreases self,
    {
        match self {
            Shape::Empty => fork(Shape::Empty, key, Shape::Empty),
            Shape::Fork { left, key: here, right } => {
                if key == here {
                    self
                } else if key < here {
                    fork(left.inserted(key), here, *right).rebalanced()
                } else {
                    fork(*left, here, right.inserted(key)).rebalanced()
                }
            },
        }
    }

    /// The key that a left-to-right walk meets first. Only meaningful for a
    /// tree that is not empty.
    pub open spec fn smallest(self) -> i32
        decreases self,
    {
        match self {
            Shape::Empty => 0,
            Shape::Fork { left, key, right } => {
                if *left is Empty {
                    key
                } else {
                    left.smallest()
                }
            },
        }
    }

    /// The tree after the node with its smallest key was detached, and
    /// balance restored at every node from there up to the root.
    pub open spec fn without_smallest(self) -> Shape
        decreases self,
    {
        match self {
            Shape::Empty => self,
            Shape::Fork { left, key, right } => {
                if *left is Empty {
                    *right
                } else {
                    fork(left.without_smallest(), key, *right).rebalanced()
                }
            },
        }
    }

    /// The tree after `key` was deleted.
    ///
    /// A key that is absent leaves the tree as it is. A node with at most
    /// one subtree is replaced by that subtree. A node with two subtrees
    /// takes the smallest key of its right subtree, which is detached there.
    /// Balance is restored at every node from the detached one up to the
    /// root.
    pub open spec fn deleted(self, key: i32) -> Shape
        decreases self,
    {
        match self {
            Shape::Empty => self,
            Shape::Fork { left, key: here, right } => {
                if key < here {
                    fork(left.deleted(key), here, *right).rebalanced()
                } else if key > here {
                    fork(*left, here, right.deleted(key)).rebalanced()
                } else if *right is Empty {
                    *left
                } else if *left is Empty {
                    *right
                } else {
                    fork(*left, right.smallest(), right.without_smallest()).rebalanced()
                }
            },
        }
    }

    /// The keys as a left-to-right walk meets them.
    pub open spec fn in_order(self) -> Seq<i32>
        decreases self,
    {
        match self {
            Shape::Empty => Seq::empty(),
            Shape::Fork { left, key, right } => left.in_order().push(key) + right.in_order(),
        }
    }

    /// A left-to-right walk meets exactly the keys of the tree.
    pub proof fn lemma_in_order_covers_keys(self)
        ensures
            forall|k: i32| self.in_order().contains(k) <==> self.keys().contains(k),
            self.in_order().len() == self.size(),
        decreases self,
    {
        match self {
            Shape::Empty => {},
            Shape::Fork { left, key, right } => {
                left.lemma_in_order_covers_keys();
                right.lemma_in_order_covers_keys();
                let l = left.in_order();
                let r = right.in_order();
                let all = l.push(key) + r;
                assert forall|k: i32| all.contains(k) <==> self.keys().contains(k) by {
                    if all.contains(k) {
                        let i = choose|i: int| 0 <= i < all.len() && all[i] == k;
                        if i < l.len() {
                            assert(l[i] == k);
                        } else if i > l.len() {
                            assert(r[i - l.len() - 1] == k);
                        }
                    }
                    if left.keys().contains(k) {
                        let i = choose|i: int| 0 <= i < l.len() && l[i] == k;
                        assert(all[i] == k);
                    }
                    if right.keys().contains(k) {
                        let i = choose|i: int| 0 <= i < r.len() && r[i] == k;
                        assert(all[l.len() + 1 + i] == k);
                    }
                    if k == key {
                        assert(all[l.len() as int] == k);
                    }
                }
            },
        }
    }

    /// Both subtrees below the root are balanced at every node.
    pub open spec fn has_balanced_subtrees(self) -> bool {
        match self {
            Shape::Empty => true,
            Shape::Fork { left, key, right } => left.is_balanced() && right.is_balanced(),
        }
    }

    /// A right rotation keeps the keys and their order.
    pub proof fn lemma_rotated_right_keeps_order(self)
        requires
            self.is_search_ordered(),
        ensures
            self.rotated_right().is_search_ordered(),
            self.rotated_right().keys() == self.keys(),
    {
        match self {
            Shape::Empty => {},
            Shape::Fork { left, key, right } => match *left {
                Shape::Empty => {},
                Shape::Fork { left: outer, key: pivot, right: inner } => {
                    let low = fork(*inner, key, *right);
                    let top = fork(*outer, pivot, low);
                    assert(left.is_search_ordered());
                    assert(left.keys() == outer.keys().union(inner.keys()).insert(pivot));
                    assert(low.keys() == inner.keys().union(right.keys()).insert(key));
                    assert(left.keys().contains(pivot));
                    assert forall|k: i32| inner.keys().contains(k) implies k < key by {
                        assert(left.keys().contains(k));
                    }
                    assert(low.is_search_ordered());
                    assert(top.is_search_ordered());
                    assert(top.keys() =~= self.keys());
                },
            },
        }
    }

    /// A left rotation keeps the keys and their order.
    pub proof fn lemma_rotated_left_keeps_order(self)
        requires
            self.is_search_ordered(),
        ensures
            self.rotated_left().is_search_ordered(),
            self.rotated_left().keys() == self.keys(),
    {
        match self {
            Shape::Empty => {},
            Shape::Fork { left, key, right } => match *right {
                Shape::Empty => {},
                Shape::Fork { left: inner, key: pivot, right: outer } => {
                    let low = fork(*left, key, *inner);
                    let top = fork(low, pivot, *outer);
                    assert(right.is_search_ordered());
                    assert(right.keys() == inner.keys().union(outer.keys()).insert(pivot));
                    assert(low.keys() == left.keys().union(inner.keys()).insert(key));
                    assert(right.keys().contains(pivot));
                    assert forall|k: i32| inner.keys().contains(k) implies key < k by {
                        assert(right.keys().contains(k));
                    }
                    assert(low.is_search_ordered());
                    assert(top.is_search_ordered());
                    assert(top.keys() =~= self.keys());
                },
            },
        }
    }

    /// Restoring balance at the root keeps the keys and their order.
    pub proof fn lemma_rebalanced_keeps_order(self)
        requires
            self.is_search_ordered(),
        ensures
            self.rebalanced().is_search_ordered(),
            self.rebalanced().keys() == self.keys(),
    {
        match self {
            Shape::Empty => {},
            Shape::Fork { left, key, right } => {
                if self.balance_factor() > 1 {
                    left.lemma_rotated_left_keeps_order();
                    let heavy = if left.balance_factor() < 0 {
                        left.rotated_left()
                    } else {
                        *left
                    };
                    let leaning = fork(heavy, key, *right);
                    assert(leaning.is_search_ordered());
                    assert(leaning.keys() =~= self.keys());
                    leaning.lemma_rotated_right_keeps_order();
                } else if self.balance_factor() < -1 {
                    right.lemma_rotated_right_keeps_order();
                    let heavy = if right.balance_factor() > 0 {
                        right.rotated_right()
                    } else {
                        *right
                    };
                    let leaning = fork(*left, key, heavy);
                    assert(leaning.is_search_ordered());
                    assert(leaning.keys() =~= self.keys());
                    leaning.lemma_rotated_left_keeps_order();
                }
            },
        }
    }

    /// Restoring balance at the root of a tree whose subtrees are balanced,
    /// and differ by at most two levels, gives a balanced tree. The tree
    /// keeps its height or loses one level, and a tree that was balanced
    /// stays as it is.
    pub proof fn lemma_rebalanced_is_balanced(self)
        requires
            self.has_balanced_subtrees(),
            -2 <= self.balance_factor() <= 2,
        ensures
            self.rebalanced().is_balanced(),
            self.height() - 1 <= self.rebalanced().height() <= self.height(),
            -1 <= self.balance_factor() <= 1 ==> self.rebalanced() == self,
    {
        match self {
            Shape::Empty => {},
            Shape::Fork { left, key, right } => {
                if self.balance_factor() > 1 {
                    match *left {
                        Shape::Empty => {},
                        Shape::Fork { left: outer, key: pivot, right: inner } => {
                            if left.balance_factor() < 0 {
                                match *inner {
                                    Shape::Empty => {},
                                    Shape::Fork { left: near, key: middle, right: far } => {
                                        let low_left = fork(*outer, pivot, *near);
                                        let low_right = fork(*far, key, *right);
                                        let top = fork(low_left, middle, low_right);
                                        assert(left.rotated_left() == fork(low_left, middle, *far));
                                        assert(self.rebalanced() == top);
                                        assert(left.is_balanced());
                                        assert(inner.is_balanced());
                                        assert(left.height() == 1 + taller(
                                            outer.height(),
                                            inner.height(),
                                        ));
                                        assert(inner.height() == 1 + taller(
                                            near.height(),
                                            far.height(),
                                        ));
                                        assert(low_left.height() == 1 + taller(
                                            outer.height(),
                                            near.height(),
                                        ));
                                        assert(low_right.height() == 1 + taller(
                                            far.height(),
                                            right.height(),
                                        ));
                                        assert(low_left.is_balanced());
                                        assert(low_right.is_balanced());
                                        assert(top.is_balanced());
                                    },
                                }
                            } else {
                                let low = fork(*inner, key, *right);
                                let top = fork(*outer, pivot, low);
                                assert(self.rebalanced() == top);
                                assert(left.is_balanced());
                                assert(left.height() == 1 + taller(
                                    outer.height(),
                                    inner.height(),
                                ));
                                assert(low.height() == 1 + taller(inner.height(), right.height()));
                                assert(low.is_balanced());
                                assert(top.is_balanced());
                            }
                        },
                    }
                } else if self.balance_factor() < -1 {
                    match *right {
                        Shape::Empty => {},
                        Shape::Fork { left: inner, key: pivot, right: outer } => {
                            if right.balance_factor() > 0 {
                                match *inner {
                                    Shape::Empty => {},
                                    Shape::Fork { left: far, key: middle, right: near } => {
                                        let low_left = fork(*left, key, *far);
                                        let low_right = fork(*near, pivot, *outer);
                                        let top = fork(low_left, middle, low_right);
                                        assert(right.rotated_right() == fork(
                                            *far,
                                            middle,
                                            low_right,
                                        ));
                                        assert(self.rebalanced() == top);
                                        assert(right.is_balanced());
                                        assert(inner.is_balanced());
                                        assert(right.height() == 1 + taller(
                                            inner.height(),
                                            outer.height(),
                                        ));
                                        assert(inner.height() == 1 + taller(
                                            far.height(),
                                            near.height(),
                                        ));
                                        assert(low_left.height() == 1 + taller(
                                            left.height(),
                                            far.height(),
                                        ));
                                        assert(low_right.height() == 1 + taller(
                                            near.height(),
                                            outer.height(),
                                        ));
                                        assert(low_left.is_balanced());
                                        assert(low_right.is_balanced());
                                        assert(top.is_balanced());
                                    },
                                }
                            } else {
                                let low = fork(*left, key, *inner);
                                let top = fork(low, pivot, *outer);
                                assert(self.rebalanced() == top);
                                assert(right.is_balanced());
                                assert(right.height() == 1 + taller(
                                    inner.height(),
                                    outer.height(),
                                ));
                                assert(low.height() == 1 + taller(left.height(), inner.height()));
                                assert(low.is_balanced());
                                assert(top.is_balanced());
                            }
                        },
                    }
                }
            },
        }
    }

    /// Inserting a key into a balanced search tree gives a balanced search
    /// tree with that key added. The tree keeps its height or gains one
    /// level.
    pub proof fn lemma_inserted_is_avl(self, key: i32)
        requires
            self.is_avl(),
        ensures
            self.inserted(key).is_avl(),
            self.inserted(key).keys() == self.keys().insert(key),
            self.height() <= self.inserted(key).height() <= self.height() + 1,
            self.keys().contains(key) ==> self.inserted(key) == self,
        decreases self,
    {
        match self {
            Shape::Empty => {
                let leaf = fork(Shape::Empty, key, Shape::Empty);
                assert(leaf.keys() =~= self.keys().insert(key));
                assert(leaf.is_search_ordered());
                assert(leaf.is_balanced());
            },
            Shape::Fork { left, key: here, right } => {
                if key == here {
                    assert(self.keys().insert(key) =~= self.keys());
                } else if key < here {
                    left.lemma_inserted_is_avl(key);
                    assert(!right.keys().contains(key));
                    let grown = fork(left.inserted(key), here, *right);
                    assert(grown.keys() =~= self.keys().insert(key));
                    assert(grown.is_search_ordered());
                    grown.lemma_rebalanced_keeps_order();
                    grown.lemma_rebalanced_is_balanced();
                } else {
                    right.lemma_inserted_is_avl(key);
                    assert(!left.keys().contains(key));
                    let grown = fork(*left, here, right.inserted(key));
                    assert(grown.keys() =~= self.keys().insert(key));
                    assert(grown.is_search_ordered());
                    grown.lemma_rebalanced_keeps_order();
                    grown.lemma_rebalanced_is_balanced();
                }
            },
        }
    }

    /// Detaching the smallest key of a balanced search tree that is not
    /// empty gives a balanced search tree without that key. The tree keeps
    /// its height or loses one level.
    pub proof fn lemma_without_smallest_is_avl(self)
        requires
            self.is_avl(),
            self is Fork,
        ensures
            self.keys().contains(self.smallest()),
            forall|k: i32| self.keys().contains(k) ==> self.smallest() <= k,
            self.without_smallest().is_avl(),
            self.without_smallest().keys() == self.keys().remove(self.smallest()),
            self.height() - 1 <= self.without_smallest().height() <= self.height(),
        decreases self,
    {
        match self {
            Shape::Empty => {},
            Shape::Fork { left, key, right } => {
                if *left is Empty {
                    assert(!right.keys().contains(key));
                    assert(right.keys() =~= self.keys().remove(key));
                } else {
                    left.lemma_without_smallest_is_avl();
                    let least = left.smallest();
                    assert(self.smallest() == least);
                    assert(least < key);
                    assert(!right.keys().contains(least));
                    let shrunk = fork(left.without_smallest(), key, *right);
                    assert(shrunk.keys() =~= self.keys().remove(least));
                    assert(shrunk.is_search_ordered());
                    shrunk.lemma_rebalanced_keeps_order();
                    shrunk.lemma_rebalanced_is_balanced();
                }
            },
        }
    }

    /// The key at the root, or 0 for an empty tree.
    pub open spec fn root_key(self) -> i32 {
        match self {
            Shape::Empty => 0,
            Shape::Fork { left, key, right } => key,
        }
    }

    /// Deleting the key at the root of a balanced search tree gives a
    /// balanced search tree without that key. The tree keeps its height or
    /// loses one level.
    pub proof fn lemma_root_deleted_is_avl(self)
        requires
            self.is_avl(),
            self is Fork,
        ensures
            self.deleted(self.root_key()).is_avl(),
            self.deleted(self.root_key()).keys() == self.keys().remove(self.root_key()),
            self.height() - 1 <= self.deleted(self.root_key()).height() <= self.height(),
    {
        match self {
            Shape::Empty => {},
            Shape::Fork { left, key, right } => {
                assert(!left.keys().contains(key));
                assert(!right.keys().contains(key));
                if *right is Empty {
                    assert(self.deleted(key) == *left);
                    assert(left.keys() =~= self.keys().remove(key));
                } else if *left is Empty {
                    assert(self.deleted(key) == *right);
                    assert(right.keys() =~= self.keys().remove(key));
                } else {
                    right.lemma_without_smallest_is_avl();
                    let next = right.smallest();
                    let rest = right.without_smallest();
                    let raised = fork(*left, next, rest);
                    assert(self.deleted(key) == raised.rebalanced());
                    assert(raised.keys() == left.keys().union(rest.keys()).insert(next));
                    assert(raised.keys() =~= self.keys().remove(key));
                    assert forall|k: i32| rest.keys().contains(k) implies next < k by {
                        assert(right.keys().contains(k));
                    }
                    assert forall|k: i32| left.keys().contains(k) implies k < next by {
                        assert(right.keys().contains(next));
                    }
                    assert(raised.is_search_ordered());
                    assert(raised.height() == 1 + taller(left.height(), rest.height()));
                    raised.lemma_rebalanced_keeps_order();
                    raised.lemma_rebalanced_is_balanced();
                }
            },
        }
    }

    /// Deleting a key from a balanced search tree gives a balanced search
    /// tree without that key. The tree keeps its height or loses one level,
    /// and a tree that does not hold the key stays as it is.
    pub proof fn lemma_deleted_is_avl(self, key: i32)
        requires
            self.is_avl(),
        ensures
            self.deleted(key).is_avl(),
            self.deleted(key).keys() == self.keys().remove(key),
            self.height() - 1 <= self.deleted(key).height() <= self.height(),
            !self.keys().contains(key) ==> self.deleted(key) == self,
        decreases self,
    {
        match self {
            Shape::Empty => {
                assert(self.keys().remove(key) =~= self.keys());
            },
            Shape::Fork { left, key: here, right } => {
                if key < here {
                    left.lemma_deleted_is_avl(key);
                    let shrunk = fork(left.deleted(key), here, *right);
                    assert(self.deleted(key) == shrunk.rebalanced());
                    assert(!right.keys().contains(key));
                    assert(shrunk.keys() == left.deleted(key).keys().union(right.keys()).insert(
                        here,
                    ));
                    assert(shrunk.keys() =~= self.keys().remove(key));
                    assert(shrunk.is_search_ordered());
                    assert(shrunk.height() == 1 + taller(
                        left.deleted(key).height(),
                        right.height(),
                    ));
                    shrunk.lemma_rebalanced_keeps_order();
                    shrunk.lemma_rebalanced_is_balanced();
                } else if key > here {
                    right.lemma_deleted_is_avl(key);
                    let shrunk = fork(*left, here, right.deleted(key));
                    assert(self.deleted(key) == shrunk.rebalanced());
                    assert(!left.keys().contains(key));
                    assert(shrunk.keys() == left.keys().union(right.deleted(key).keys()).insert(
                        here,
                    ));
                    assert(shrunk.keys() =~= self.keys().remove(key));
                    assert(shrunk.is_search_ordered());
                    assert(shrunk.height() == 1 + taller(
                        left.height(),
                        right.deleted(key).height(),
                    ));
                    shrunk.lemma_rebalanced_keeps_order();
                    shrunk.lemma_rebalanced_is_balanced();
                } else {
                    self.lemma_root_deleted_is_avl();
                }
            },
        }
    }

    /// The tree after the given changes were made, one after the other.
    pub open spec fn changed(self, changes: Seq<Change>) -> Shape
        decreases changes.len(),
    {
        if changes.len() == 0 {
            self
        } else {
            let earlier = self.changed(changes.drop_last());
            match changes.last() {
                Change::Insert(key) => earlier.inserted(key),
                Change::Delete(key) => earlier.deleted(key),
            }
        }
    }

    /// Whatever keys are inserted and deleted, in whatever order, a balanced
    /// search tree stays one: after each change every node's balance factor
    /// is -1, 0 or 1.
    pub proof fn lemma_stays_avl(self, changes: Seq<Change>)
        requires
            self.is_avl(),
        ensures
            self.changed(changes).is_avl(),
        decreases changes.len(),
    {
        if changes.len() > 0 {
            self.lemma_stays_avl(changes.drop_last());
            let earlier = self.changed(changes.drop_last());
            match changes.last() {
                Change::Insert(key) => earlier.lemma_inserted_is_avl(key),
                Change::Delete(key) => earlier.lemma_deleted_is_avl(key),
            }
        }
    }

    /// A balanced tree has at least the fewest nodes its height allows.
    pub proof fn lemma_balanced_is_full(self)
        requires
            self.is_balanced(),
        ensures
            fewest_nodes(self.height()) <= self.size(),
        decreases self,
    {
        match self {
            Shape::Empty => {},
            Shape::Fork { left, key, right } => {
                left.lemma_balanced_is_full();
                right.lemma_balanced_is_full();
                let height = self.height();
                if height >= 2 {
                    if left.height() >= right.height() {
                        lemma_fewest_nodes_grows((height - 2) as nat, right.height());
                    } else {
                        lemma_fewest_nodes_grows((height - 2) as nat, left.height());
                    }
                }
            },
        }
    }

    /// The height of a balanced tree is logarithmic in its size: a tree of
    /// height `h` has at least `2^(h/2) - 1` nodes.
    pub proof fn lemma_balanced_is_shallow(self)
        requires
            self.is_balanced(),
        ensures
            pow2(self.height() / 2) <= self.size() + 1,
    {
        self.lemma_balanced_is_full();
        lemma_fewest_nodes_doubles(self.height());
    }

    /// A search-ordered tree has as many nodes as keys.
    pub proof fn lemma_size_is_key_count(self)
        requires
            self.is_search_ordered(),
        ensures
            self.keys().finite(),
            self.keys().len() == self.size(),
    {
        self.lemma_in_order_covers_keys();
        self.lemma_in_order_ascends();
        let walk = self.in_order();
        assert(walk.no_duplicates());
        walk.unique_seq_to_set();
        assert(walk.to_set() =~= self.keys());
    }

    /// In a search-ordered tree a left-to-right walk meets the keys in
    /// strictly increasing order.
    pub proof fn lemma_in_order_ascends(self)
        requires
            self.is_search_ordered(),
        ensures
            strictly_ascending(self.in_order()),
        decreases self,
    {
        match self {
            Shape::Empty => {},
            Shape::Fork { left, key, right } => {
                left.lemma_in_order_ascends();
                right.lemma_in_order_ascends();
                left.lemma_in_order_covers_keys();
                right.lemma_in_order_covers_keys();
                let l = left.in_order();
                let r = right.in_order();
                let all = l.push(key) + r;
                assert forall|i: int, j: int| 0 <= i < j < all.len() implies all[i] < all[j] by {
                    if i < l.len() {
                        assert(l.contains(l[i]));
                    }
                    if j > l.len() {
                        assert(r.contains(r[j - l.len() - 1]));
                    }
                    if i > l.len() {
                        assert(r.contains(r[i - l.len() - 1]));
                    }
                    if j < l.len() {
                        assert(l.contains(l[j]));
                    }
                }
            },
        }
    }
}

} // verus!
