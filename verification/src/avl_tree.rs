//! The balanced tree engine.

use vstd::arithmetic::power2::pow2;
use vstd::prelude::*;
use crate::errors::ApplicationError;
use crate::listing::{entries_of, is_ascending_listing, lemma_listing_counts};
use crate::records::Record;
use crate::shape::{fork, Shape};

verus! {

/// One node of the tree: a record under its key, the cached height of the
/// subtree rooted here, and the two subtrees it owns.
struct Node<T> {
    id: i32,
    record: T,
    height: u64,
    left: Option<Box<Node<T>>>,
    right: Option<Box<Node<T>>>,
}

/// The cached height of a subtree; an absent subtree has height 0.
spec fn link_height<T>(link: Option<Box<Node<T>>>) -> int {
    match link {
        None => 0,
        Some(node) => node.height as int,
    }
}

/// The records of a subtree, each under its key.
spec fn link_map<T>(link: Option<Box<Node<T>>>) -> Map<i32, T>
    decreases link,
{
    match link {
        None => Map::empty(),
        Some(node) => link_map(node.left).union_prefer_right(link_map(node.right)).insert(
            node.id,
            node.record,
        ),
    }
}

/// The records at and below a node.
spec fn node_map<T>(node: Node<T>) -> Map<i32, T> {
    link_map(node.left).union_prefer_right(link_map(node.right)).insert(node.id, node.record)
}

/// The outline of a subtree.
spec fn link_shape<T>(link: Option<Box<Node<T>>>) -> Shape
    decreases link,
{
    match link {
        None => Shape::Empty,
        Some(node) => fork(link_shape(node.left), node.id, link_shape(node.right)),
    }
}

/// The outline of a node with its subtrees.
spec fn node_shape<T>(node: Node<T>) -> Shape {
    fork(link_shape(node.left), node.id, link_shape(node.right))
}

/// The height a node must cache, given its subtrees.
spec fn height_above<T>(node: Node<T>) -> int {
    let l = link_height(node.left);
    let r = link_height(node.right);
    if l >= r {
        l + 1
    } else {
        r + 1
    }
}

/// The node's key separates the keys of its two subtrees.
spec fn keys_split<T>(node: Node<T>) -> bool {
    &&& forall|k: i32| link_map(node.left).contains_key(k) ==> k < node.id
    &&& forall|k: i32| link_map(node.right).contains_key(k) ==> node.id < k
}

/// The subtree is search-ordered, height-balanced, and caches its heights
/// correctly, at every node.
spec fn link_sound<T>(link: Option<Box<Node<T>>>) -> bool
    decreases link,
{
    match link {
        None => true,
        Some(node) => {
            &&& link_sound(node.left)
            &&& link_sound(node.right)
            &&& keys_split(*node)
            &&& node.height as int == height_above(*node)
            &&& -1 <= link_height(node.left) - link_height(node.right) <= 1
        },
    }
}

/// Both subtrees are sound, and the node's key separates their keys.
spec fn children_sound<T>(node: Node<T>) -> bool {
    &&& link_sound(node.left)
    &&& link_sound(node.right)
    &&& keys_split(node)
}

/// Everything a sound node needs except balance at the node itself.
spec fn node_settled<T>(node: Node<T>) -> bool {
    &&& children_sound(node)
    &&& node.height as int == height_above(node)
}

/// A sound subtree whose keys lie strictly between `lo` and `hi` is no
/// higher than the number of integers between them.
proof fn lemma_height_within_span<T>(link: Option<Box<Node<T>>>, lo: int, hi: int)
    requires
        link_sound(link),
        lo < hi,
        forall|k: i32| link_map(link).contains_key(k) ==> lo < k < hi,
    ensures
        0 <= link_height(link) <= hi - lo - 1,
    decreases link,
{
    match link {
        None => {},
        Some(node) => {
            assert(link_map(link).contains_key(node.id));
            assert forall|k: i32| link_map(node.left).contains_key(k) implies lo < k < node.id by {
                assert(link_map(link).contains_key(k));
            }
            assert forall|k: i32| link_map(node.right).contains_key(k) implies node.id < k < hi by {
                assert(link_map(link).contains_key(k));
            }
            lemma_height_within_span(node.left, lo, node.id as int);
            lemma_height_within_span(node.right, node.id as int, hi);
        },
    }
}

/// No sound subtree is higher than there are keys.
proof fn lemma_height_bounded<T>(link: Option<Box<Node<T>>>)
    requires
        link_sound(link),
    ensures
        0 <= link_height(link) <= 0x1_0000_0000,
{
    lemma_height_within_span(link, i32::MIN as int - 1, i32::MAX as int + 1);
}

/// A sound subtree has the outline of a balanced search tree, over exactly
/// the keys of its records, and caches its true height.
proof fn lemma_outline<T>(link: Option<Box<Node<T>>>)
    requires
        link_sound(link),
    ensures
        link_shape(link).is_avl(),
        link_shape(link).keys() == link_map(link).dom(),
        link_shape(link).height() == link_height(link),
        link_map(link).dom().finite(),
    decreases link,
{
    match link {
        None => {
            assert(link_shape(link).keys() =~= link_map(link).dom());
        },
        Some(node) => {
            lemma_outline(node.left);
            lemma_outline(node.right);
            assert(link_shape(link).keys() =~= link_map(link).dom());
        },
    }
}

fn height_of<T>(link: &Option<Box<Node<T>>>) -> (h: u64)
    ensures
        h as int == link_height(*link),
{
    match link {
        None => 0,
        Some(node) => node.height,
    }
}

/// Lifts the left child above `node`, which becomes its right child.
///
/// The records and their order stay the same; only the two nodes involved
/// change places, and both get their heights recomputed.
fn rotate_right<T>(mut node: Box<Node<T>>) -> (top: Box<Node<T>>)
    requires
        node.left is Some,
        node_settled(*node.left->0),
        link_sound(node.right),
        keys_split(*node),
        -1 <= link_height(node.left->0.right) - link_height(node.right) <= 1,
    ensures
        node_settled(*top),
        node_map(*top) == node_map(*node),
        node_shape(*top) == node_shape(*node).rotated_right(),
        top.left == node.left->0.left,
        top.right is Some,
        link_height(top.right) == 1 + (if link_height(node.left->0.right) >= link_height(
            node.right,
        ) {
            link_height(node.left->0.right)
        } else {
            link_height(node.right)
        }),
{
    proof {
        lemma_height_bounded(node.left->0.left);
        lemma_height_bounded(node.left->0.right);
        lemma_height_bounded(node.right);
    }
    let ghost before = *node;
    let mut pivot = node.left.take().unwrap();
    node.left = pivot.right.take();
    let inner: u64 = height_of(&node.left);
    let outer: u64 = height_of(&node.right);
    node.height = if inner >= outer {
        inner + 1
    } else {
        outer + 1
    };
    proof {
        assert(link_map(before.left) == node_map(*before.left->0));
        assert forall|k: i32| link_map(node.left).contains_key(k) implies k < node.id by {
            assert(link_map(before.left).contains_key(k));
        }
        assert(link_sound(Some(node)));
    }
    let ghost lowered = *node;
    pivot.right = Some(node);
    let near: u64 = height_of(&pivot.left);
    let far: u64 = height_of(&pivot.right);
    pivot.height = if near >= far {
        near + 1
    } else {
        far + 1
    };
    proof {
        assert(link_map(pivot.right) == node_map(lowered));
        assert(link_map(before.left).contains_key(pivot.id));
        assert(keys_split(*pivot));
        assert(node_map(*pivot) =~= node_map(before));
        assert(link_shape(pivot.right) == node_shape(lowered));
        assert(link_shape(before.left) == node_shape(*before.left->0));
    }
    pivot
}

/// Lifts the right child above `node`, which becomes its left child.
///
/// The mirror image of `rotate_right`.
fn rotate_left<T>(mut node: Box<Node<T>>) -> (top: Box<Node<T>>)
    requires
        node.right is Some,
        node_settled(*node.right->0),
        link_sound(node.left),
        keys_split(*node),
        -1 <= link_height(node.right->0.left) - link_height(node.left) <= 1,
    ensures
        node_settled(*top),
        node_map(*top) == node_map(*node),
        node_shape(*top) == node_shape(*node).rotated_left(),
        top.right == node.right->0.right,
        top.left is Some,
        link_height(top.left) == 1 + (if link_height(node.right->0.left) >= link_height(
            node.left,
        ) {
            link_height(node.right->0.left)
        } else {
            link_height(node.left)
        }),
{
    proof {
        lemma_height_bounded(node.right->0.left);
        lemma_height_bounded(node.right->0.right);
        lemma_height_bounded(node.left);
    }
    let ghost before = *node;
    let mut pivot = node.right.take().unwrap();
    node.right = pivot.left.take();
    let inner: u64 = height_of(&node.right);
    let outer: u64 = height_of(&node.left);
    node.height = if inner >= outer {
        inner + 1
    } else {
        outer + 1
    };
    proof {
        assert(link_map(before.right) == node_map(*before.right->0));
        assert forall|k: i32| link_map(node.right).contains_key(k) implies node.id < k by {
            assert(link_map(before.right).contains_key(k));
        }
        assert(link_sound(Some(node)));
    }
    let ghost lowered = *node;
    pivot.left = Some(node);
    let near: u64 = height_of(&pivot.right);
    let far: u64 = height_of(&pivot.left);
    pivot.height = if near >= far {
        near + 1
    } else {
        far + 1
    };
    proof {
        assert(link_map(pivot.left) == node_map(lowered));
        assert(link_map(before.right).contains_key(pivot.id));
        assert(keys_split(*pivot));
        assert(node_map(*pivot) =~= node_map(before));
        assert(link_shape(pivot.left) == node_shape(lowered));
        assert(link_shape(before.right) == node_shape(*before.right->0));
    }
    pivot
}

/// Restores balance at `node` after one of its subtrees grew or shrank by
/// one level.
///
/// A node whose subtrees differ by at most one level only has its height
/// recomputed. A node that is two levels heavier on one side is rotated
/// towards the other side: once if the heavy child does not lean inwards,
/// otherwise after first rotating that child outwards.
fn rebalance<T>(mut node: Box<Node<T>>) -> (top: Box<Node<T>>)
    requires
        children_sound(*node),
        -2 <= link_height(node.left) - link_height(node.right) <= 2,
    ensures
        link_sound(Some(top)),
        link_map(Some(top)) == node_map(*node),
        link_shape(Some(top)) == node_shape(*node).rebalanced(),
        -1 <= link_height(node.left) - link_height(node.right) <= 1 ==> {
            &&& top.left == node.left
            &&& top.right == node.right
            &&& top.id == node.id
            &&& top.record == node.record
            &&& top.height as int == height_above(*node)
        },
        height_above(*node) - 1 <= top.height as int <= height_above(*node),
{
    proof {
        lemma_height_bounded(node.left);
        lemma_height_bounded(node.right);
        lemma_outline(node.left);
        lemma_outline(node.right);
    }
    let ghost before = *node;
    let left_height: u64 = height_of(&node.left);
    let right_height: u64 = height_of(&node.right);
    if left_height > right_height + 1 {
        let mut heavy = node.left.take().unwrap();
        proof {
            assert(link_map(before.left) == node_map(*heavy));
            assert(link_shape(before.left) == node_shape(*heavy));
            lemma_outline(heavy.left);
            lemma_outline(heavy.right);
        }
        if height_of(&heavy.left) < height_of(&heavy.right) {
            proof {
                assert(link_sound(heavy.right));
            }
            heavy = rotate_left(heavy);
        }
        node.left = Some(heavy);
        proof {
            assert(link_map(node.left) == node_map(*heavy));
            assert(node_map(*node) == node_map(before));
            assert(link_shape(node.left) == node_shape(*heavy));
        }
        let top = rotate_right(node);
        top
    } else if right_height > left_height + 1 {
        let mut heavy = node.right.take().unwrap();
        proof {
            assert(link_map(before.right) == node_map(*heavy));
            assert(link_shape(before.right) == node_shape(*heavy));
            lemma_outline(heavy.left);
            lemma_outline(heavy.right);
        }
        if height_of(&heavy.right) < height_of(&heavy.left) {
            proof {
                assert(link_sound(heavy.left));
            }
            heavy = rotate_right(heavy);
        }
        node.right = Some(heavy);
        proof {
            assert(link_map(node.right) == node_map(*heavy));
            assert(node_map(*node) == node_map(before));
            assert(link_shape(node.right) == node_shape(*heavy));
        }
        let top = rotate_left(node);
        top
    } else {
        node.height = if left_height >= right_height {
            left_height + 1
        } else {
            right_height + 1
        };
        node
    }
}

/// Files `record` under `key` in the subtree and hands the subtree back.
///
/// A key that is already present keeps its node, and the tree keeps its
/// outline; a new key becomes a leaf, and every node on the way back up to
/// the root is rebalanced.
fn insert_link<T>(link: Option<Box<Node<T>>>, key: i32, record: T) -> (grown: Option<Box<Node<T>>>)
    requires
        link_sound(link),
    ensures
        link_sound(grown),
        link_map(grown) == link_map(link).insert(key, record),
        link_shape(grown) == link_shape(link).inserted(key),
        link_height(link) <= link_height(grown) <= link_height(link) + 1,
        link_map(link).contains_key(key) ==> {
            &&& link_shape(grown) == link_shape(link)
            &&& link_height(grown) == link_height(link)
        },
    decreases link,
{
    match link {
        None => {
            let leaf = Node { id: key, record, height: 1, left: None, right: None };
            proof {
                assert(link_map(Some(Box::new(leaf))) =~= link_map::<T>(None).insert(key, record));
            }
            Some(Box::new(leaf))
        },
        Some(mut node) => {
            let ghost before = *node;
            if key == node.id {
                node.record = record;
                proof {
                    assert(link_map(Some(node)) =~= link_map(link).insert(key, record));
                }
                Some(node)
            } else if key < node.id {
                let below = node.left.take();
                node.left = insert_link(below, key, record);
                proof {
                    assert(node_map(*node) =~= node_map(before).insert(key, record));
                }
                Some(rebalance(node))
            } else {
                let below = node.right.take();
                node.right = insert_link(below, key, record);
                proof {
                    assert(node_map(*node) =~= node_map(before).insert(key, record));
                }
                Some(rebalance(node))
            }
        },
    }
}

/// Looks `key` up by descending from the root of the subtree.
fn find_link<T>(link: &Option<Box<Node<T>>>, key: i32) -> (found: Option<&T>)
    requires
        link_sound(*link),
    ensures
        found is Some <==> link_map(*link).contains_key(key),
        found is Some ==> *found->0 == link_map(*link)[key],
    decreases *link,
{
    match link {
        None => {
            assert(!link_map(*link).contains_key(key));
            None
        },
        Some(node) => {
            proof {
                assert(link_map(*link) == node_map(**node));
            }
            if key == node.id {
                Some(&node.record)
            } else if key < node.id {
                let found = find_link(&node.left, key);
                proof {
                    assert(!link_map(node.right).contains_key(key));
                }
                found
            } else {
                let found = find_link(&node.right, key);
                proof {
                    assert(!link_map(node.left).contains_key(key));
                }
                found
            }
        },
    }
}

/// Detaches the node with the smallest key from a non-empty subtree.
///
/// Returns what is left of the subtree, rebalanced, together with the key
/// and record that were detached.
fn take_smallest<T>(mut node: Box<Node<T>>) -> (out: (Option<Box<Node<T>>>, i32, T))
    requires
        link_sound(Some(node)),
    ensures
        link_sound(out.0),
        node_map(*node).contains_key(out.1),
        node_map(*node)[out.1] == out.2,
        forall|k: i32| node_map(*node).contains_key(k) ==> out.1 <= k,
        link_map(out.0) == node_map(*node).remove(out.1),
        out.1 == node_shape(*node).smallest(),
        link_shape(out.0) == node_shape(*node).without_smallest(),
        node.height as int - 1 <= link_height(out.0) <= node.height as int,
    decreases node,
{
    let ghost before = *node;
    match node.left.take() {
        None => {
            let unboxed = *node;
            proof {
                assert(link_map(unboxed.right) =~= node_map(before).remove(unboxed.id));
            }
            (unboxed.right, unboxed.id, unboxed.record)
        },
        Some(below) => {
            proof {
                assert(link_map(before.left) == node_map(*below));
            }
            let (rest, key, record) = take_smallest(below);
            node.left = rest;
            proof {
                assert(node_map(*node) =~= node_map(before).remove(key));
            }
            (Some(rebalance(node)), key, record)
        },
    }
}

/// Removes the node at the root of a subtree and joins what is below it.
///
/// A node with at most one subtree is replaced by that subtree. A node with
/// two takes over the key and record of its in-order successor, which is
/// detached from the right subtree instead, and is then rebalanced.
fn detach_root<T>(node: Box<Node<T>>) -> (joined: Option<Box<Node<T>>>)
    requires
        link_sound(Some(node)),
    ensures
        link_sound(joined),
        link_map(joined) == node_map(*node).remove(node.id),
        link_shape(joined) == node_shape(*node).deleted(node.id),
        node.height as int - 1 <= link_height(joined) <= node.height as int,
{
    let ghost before = *node;
    let unboxed = *node;
    let Node { id, record, height, left, right } = unboxed;
    match right {
        None => {
            proof {
                assert(link_map(left) =~= node_map(before).remove(id));
            }
            left
        },
        Some(successors) => {
            if left.is_none() {
                proof {
                    assert(link_map(Some(successors)) =~= node_map(before).remove(id));
                }
                Some(successors)
            } else {
                proof {
                    assert(link_map(before.right) == node_map(*successors));
                    assert(link_shape(before.right) == node_shape(*successors));
                }
                let (rest, next_id, next_record) = take_smallest(successors);
                let raised = Box::new(
                    Node { id: next_id, record: next_record, height, left, right: rest },
                );
                proof {
                    assert(node_map(*raised) =~= node_map(before).remove(id));
                    assert(node_shape(*raised) == fork(
                        link_shape(before.left),
                        link_shape(before.right).smallest(),
                        link_shape(before.right).without_smallest(),
                    ));
                }
                Some(rebalance(raised))
            }
        },
    }
}

/// Removes `key` from the subtree, if it is there, and says whether it was.
///
/// The node that holds the key is removed as `detach_root` describes, and
/// every node on the way back up to the root is rebalanced. A subtree that
/// does not hold the key comes back as it was.
fn delete_link<T>(link: Option<Box<Node<T>>>, key: i32) -> (out: (Option<Box<Node<T>>>, bool))
    requires
        link_sound(link),
    ensures
        link_sound(out.0),
        out.1 == link_map(link).contains_key(key),
        link_map(out.0) == link_map(link).remove(key),
        link_shape(out.0) == link_shape(link).deleted(key),
        link_height(link) - 1 <= link_height(out.0) <= link_height(link),
        !out.1 ==> out.0 == link,
    decreases link,
{
    match link {
        None => {
            proof {
                assert(link_map::<T>(None).remove(key) =~= link_map::<T>(None));
            }
            (None, false)
        },
        Some(mut node) => {
            let ghost before = *node;
            proof {
                assert(link_map(link) == node_map(before));
                assert(link_shape(link) == node_shape(before));
            }
            if key < node.id {
                let below = node.left.take();
                let (rest, found) = delete_link(below, key);
                node.left = rest;
                proof {
                    assert(!link_map(before.right).contains_key(key));
                    assert(node_map(*node) =~= node_map(before).remove(key));
                    assert(node_shape(*node) == fork(
                        link_shape(before.left).deleted(key),
                        before.id,
                        link_shape(before.right),
                    ));
                }
                (Some(rebalance(node)), found)
            } else if key > node.id {
                let below = node.right.take();
                let (rest, found) = delete_link(below, key);
                node.right = rest;
                proof {
                    assert(!link_map(before.left).contains_key(key));
                    assert(node_map(*node) =~= node_map(before).remove(key));
                    assert(node_shape(*node) == fork(
                        link_shape(before.left),
                        before.id,
                        link_shape(before.right).deleted(key),
                    ));
                }
                (Some(rebalance(node)), found)
            } else {
                (detach_root(node), true)
            }
        },
    }
}

/// Puts `record` in place of the record under `key`, if the subtree holds
/// that key, and says whether it does. No node is added, removed or moved.
fn replace_link<T>(link: Option<Box<Node<T>>>, key: i32, record: T) -> (out: (
    Option<Box<Node<T>>>,
    bool,
))
    requires
        link_sound(link),
    ensures
        out.1 == link_map(link).contains_key(key),
        out.1 ==> {
            &&& link_sound(out.0)
            &&& link_map(out.0) == link_map(link).insert(key, record)
            &&& link_shape(out.0) == link_shape(link)
            &&& link_height(out.0) == link_height(link)
        },
        !out.1 ==> out.0 == link,
    decreases link,
{
    match link {
        None => (None, false),
        Some(mut node) => {
            let ghost before = *node;
            proof {
                assert(link_map(link) == node_map(before));
            }
            if key == node.id {
                node.record = record;
                proof {
                    assert(link_map(Some(node)) =~= link_map(link).insert(key, record));
                }
                (Some(node), true)
            } else if key < node.id {
                let below = node.left.take();
                let (rest, found) = replace_link(below, key, record);
                node.left = rest;
                proof {
                    assert(!link_map(before.right).contains_key(key));
                    if found {
                        assert(link_map(Some(node)) =~= link_map(link).insert(key, record));
                    }
                }
                (Some(node), found)
            } else {
                let below = node.right.take();
                let (rest, found) = replace_link(below, key, record);
                node.right = rest;
                proof {
                    assert(!link_map(before.left).contains_key(key));
                    if found {
                        assert(link_map(Some(node)) =~= link_map(link).insert(key, record));
                    }
                }
                (Some(node), found)
            }
        },
    }
}

/// The records of a subtree with their keys, as a left-to-right walk meets
/// them.
spec fn link_listing<T>(link: Option<Box<Node<T>>>) -> Seq<(i32, T)>
    decreases link,
{
    match link {
        None => Seq::empty(),
        Some(node) => link_listing(node.left).push((node.id, node.record)) + link_listing(
            node.right,
        ),
    }
}

/// A left-to-right walk of a sound subtree lists its records in ascending
/// order of key.
proof fn lemma_listing_ascends<T>(link: Option<Box<Node<T>>>)
    requires
        link_sound(link),
    ensures
        is_ascending_listing(link_listing(link), link_map(link)),
    decreases link,
{
    match link {
        None => {},
        Some(node) => {
            lemma_listing_ascends(node.left);
            lemma_listing_ascends(node.right);
            let l = link_listing(node.left);
            let r = link_listing(node.right);
            let mid = l.len() as int;
            let all = link_listing(link);
            let records = link_map(link);
            assert(all == l.push((node.id, node.record)) + r);
            assert forall|i: int| 0 <= i < all.len() implies records.contains_key(
                #[trigger] all[i].0,
            ) && records[all[i].0] == all[i].1 && (i < mid ==> all[i].0 < node.id) && (i > mid
                ==> all[i].0 > node.id) && (i == mid ==> all[i].0 == node.id) by {
                if i < mid {
                    assert(all[i] == l[i]);
                    assert(link_map(node.left).contains_key(l[i].0));
                } else if i > mid {
                    assert(all[i] == r[i - mid - 1]);
                    assert(link_map(node.right).contains_key(r[i - mid - 1].0));
                }
            }
            assert forall|i: int, j: int| 0 <= i < j < all.len() implies all[i].0 < all[j].0 by {
                if j < mid {
                    assert(all[i] == l[i] && all[j] == l[j]);
                } else if i > mid {
                    assert(all[i] == r[i - mid - 1] && all[j] == r[j - mid - 1]);
                } else {
                    assert(records.contains_key(all[i].0));
                    assert(records.contains_key(all[j].0));
                }
            }
            assert forall|k: i32| records.contains_key(k) implies exists|i: int|
                0 <= i < all.len() && #[trigger] all[i].0 == k by {
                if k == node.id {
                    assert(all[mid].0 == k);
                } else if link_map(node.right).contains_key(k) {
                    let i = choose|i: int| 0 <= i < r.len() && #[trigger] r[i].0 == k;
                    assert(all[mid + 1 + i].0 == k);
                } else {
                    assert(link_map(node.left).contains_key(k));
                    let i = choose|i: int| 0 <= i < l.len() && #[trigger] l[i].0 == k;
                    assert(all[i].0 == k);
                }
            }
        },
    }
}

/// Appends the records of the subtree to `walk`, left to right.
fn collect_link<'a, T>(link: &'a Option<Box<Node<T>>>, walk: &mut Vec<(i32, &'a T)>)
    ensures
        entries_of(final(walk)@) == entries_of(old(walk)@) + link_listing(*link),
    decreases *link,
{
    match link {
        None => {
            assert(entries_of(walk@) + link_listing(*link) =~= entries_of(walk@));
        },
        Some(node) => {
            collect_link(&node.left, walk);
            let ghost upto_left = walk@;
            walk.push((node.id, &node.record));
            assert(entries_of(walk@) =~= entries_of(upto_left).push((node.id, node.record)));
            collect_link(&node.right, walk);
            assert(entries_of(walk@) =~= entries_of(old(walk)@) + link_listing(*link));
        },
    }
}

/// Builds a second subtree equal to this one, node by node and record by
/// record.
fn clone_link<T: Record>(link: &Option<Box<Node<T>>>) -> (copy: Option<Box<Node<T>>>)
    ensures
        copy == *link,
    decreases *link,
{
    match link {
        None => None,
        Some(node) => {
            let left = clone_link(&node.left);
            let right = clone_link(&node.right);
            Some(
                Box::new(
                    Node {
                        id: node.id,
                        record: node.record.duplicate(),
                        height: node.height,
                        left,
                        right,
                    },
                ),
            )
        },
    }
}

/// A height-balanced binary search tree of records, each under an integer
/// key that occurs once.
pub struct AvlTree<T> {
    root: Option<Box<Node<T>>>,
}

impl<T> View for AvlTree<T> {
    type V = Map<i32, T>;

    /// The records of the tree, each under its key.
    open spec fn view(&self) -> Map<i32, T> {
        self.records()
    }
}

impl<T> AvlTree<T> {
    #[verifier::type_invariant]
    spec fn sound(self) -> bool {
        link_sound(self.root)
    }

    /// The records of the tree, each under its key.
    pub closed spec fn records(self) -> Map<i32, T> {
        link_map(self.root)
    }

    /// Where the keys sit in the tree.
    pub closed spec fn shape(self) -> Shape {
        link_shape(self.root)
    }

    /// The outline of the tree goes with its records: it is a balanced
    /// search tree over exactly their keys.
    pub open spec fn outline_fits(self) -> bool {
        &&& self.shape().is_avl()
        &&& self.shape().keys() == self@.dom()
        &&& self@.dom().finite()
    }

    /// The height of a tree is logarithmic in the number of its records: a
    /// tree of height `h` holds at least `2^(h/2) - 1` of them. This is what
    /// bounds the steps of a lookup, an insertion or a deletion.
    pub proof fn lemma_height_is_logarithmic(self)
        requires
            self.outline_fits(),
        ensures
            pow2(self.shape().height() / 2) <= self@.dom().len() + 1,
    {
        self.shape().lemma_balanced_is_shallow();
        self.shape().lemma_size_is_key_count();
    }

    /// A tree without records.
    pub fn new() -> (tree: Self)
        ensures
            tree@ == Map::<i32, T>::empty(),
            tree.shape() == Shape::Empty,
            tree.outline_fits(),
    {
        let tree = AvlTree { root: None };
        proof {
            lemma_outline(tree.root);
        }
        tree
    }

    /// Files `record` under `key`.
    ///
    /// A record already filed under `key` is replaced where it sits, and the
    /// tree keeps its outline. Otherwise the tree gains one node and is
    /// rebalanced along the path from that node to the root.
    pub fn insert(&mut self, key: i32, record: T)
        ensures
            final(self)@ == old(self)@.insert(key, record),
            final(self).shape() == old(self).shape().inserted(key),
            final(self).outline_fits(),
            old(self)@.contains_key(key) ==> final(self).shape() == old(self).shape(),
    {
        proof {
            use_type_invariant(&*self);
        }
        let mut root: Option<Box<Node<T>>> = None;
        core::mem::swap(&mut self.root, &mut root);
        self.root = insert_link(root, key, record);
        proof {
            lemma_outline(self.root);
        }
    }

    /// The record filed under `key`, if there is one.
    pub fn search(&self, key: i32) -> (found: Option<&T>)
        ensures
            found is Some <==> self@.contains_key(key),
            found is Some ==> *found->0 == self@[key],
    {
        proof {
            use_type_invariant(self);
        }
        find_link(&self.root, key)
    }

    /// Puts `record` in place of the record filed under `key`.
    ///
    /// Fails, and changes nothing, if no record is filed under `key`. On
    /// success the tree keeps its outline.
    pub fn update(&mut self, key: i32, record: T) -> (outcome: Result<(), ApplicationError>)
        ensures
            outcome is Ok <==> old(self)@.contains_key(key),
            outcome is Ok ==> final(self)@ == old(self)@.insert(key, record),
            outcome is Ok ==> final(self).shape() == old(self).shape(),
            outcome is Err ==> outcome == Err::<(), ApplicationError>(ApplicationError::NotFound)
                && *final(self) == *old(self),
            final(self).outline_fits(),
    {
        proof {
            use_type_invariant(&*self);
            lemma_outline(self.root);
        }
        let mut root: Option<Box<Node<T>>> = None;
        core::mem::swap(&mut self.root, &mut root);
        let (root, found) = replace_link(root, key, record);
        self.root = root;
        proof {
            lemma_outline(self.root);
        }
        if found {
            Ok(())
        } else {
            Err(ApplicationError::NotFound)
        }
    }

    /// Removes the record filed under `key`.
    ///
    /// Fails, and changes nothing, if no record is filed under `key`.
    /// Otherwise the tree loses one node and is rebalanced along the path
    /// from where a node was detached to the root.
    pub fn delete(&mut self, key: i32) -> (outcome: Result<(), ApplicationError>)
        ensures
            outcome is Ok <==> old(self)@.contains_key(key),
            outcome is Ok ==> final(self)@ == old(self)@.remove(key),
            final(self).shape() == old(self).shape().deleted(key),
            outcome is Err ==> outcome == Err::<(), ApplicationError>(ApplicationError::NotFound)
                && *final(self) == *old(self),
            final(self).outline_fits(),
    {
        proof {
            use_type_invariant(&*self);
        }
        let mut root: Option<Box<Node<T>>> = None;
        core::mem::swap(&mut self.root, &mut root);
        let (root, found) = delete_link(root, key);
        self.root = root;
        proof {
            lemma_outline(self.root);
        }
        if found {
            Ok(())
        } else {
            Err(ApplicationError::NotFound)
        }
    }

    /// Every record with its key, in ascending order of key.
    ///
    /// The walk leaves the tree as it is and can be repeated at will.
    pub fn traverse_ascending(&self) -> (walk: Vec<(i32, &T)>)
        ensures
            is_ascending_listing(entries_of(walk@), self@),
            walk@.len() == self@.dom().len(),
    {
        proof {
            use_type_invariant(self);
            lemma_listing_ascends(self.root);
        }
        let mut walk: Vec<(i32, &T)> = Vec::new();
        collect_link(&self.root, &mut walk);
        proof {
            assert(entries_of(walk@) =~= link_listing(self.root));
            lemma_listing_counts(entries_of(walk@), self@);
        }
        walk
    }

    /// The number of nodes on the longest path from the root to a leaf.
    pub fn height(&self) -> (h: u64)
        ensures
            h == self.shape().height(),
            self.outline_fits(),
    {
        proof {
            use_type_invariant(self);
            lemma_outline(self.root);
        }
        height_of(&self.root)
    }
}

impl<T: Record> AvlTree<T> {
    /// A second tree with the same records in the same places, sharing
    /// nothing with this one.
    pub fn deep_clone(&self) -> (copy: Self)
        ensures
            copy@ == self@,
            copy.shape() == self.shape(),
            copy.outline_fits(),
    {
        proof {
            use_type_invariant(self);
            lemma_outline(self.root);
        }
        AvlTree { root: clone_link(&self.root) }
    }
}

} // verus!
