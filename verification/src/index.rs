//! The secondary index: which clients are assigned to which employee.

use vstd::prelude::*;
use crate::avl_tree::AvlTree;
use crate::listing::strictly_ascending;

verus! {

/// Where `id` stands, or would stand, in an ascending sequence: the number
/// of elements smaller than `id`.
fn position_of(ids: &Vec<i32>, id: i32) -> (at: usize)
    requires
        strictly_ascending(ids@),
    ensures
        at <= ids@.len(),
        forall|i: int| 0 <= i < at ==> ids@[i] < id,
        forall|i: int| at <= i < ids@.len() ==> id <= ids@[i],
{
    let mut low: usize = 0;
    let mut high: usize = ids.len();
    while low < high
        invariant
            low <= high <= ids@.len(),
            strictly_ascending(ids@),
            forall|i: int| 0 <= i < low ==> ids@[i] < id,
            forall|i: int| high <= i < ids@.len() ==> id <= ids@[i],
        decreases high - low,
    {
        let middle: usize = low + (high - low) / 2;
        if ids[middle] < id {
            low = middle + 1;
        } else {
            high = middle;
        }
    }
    low
}

/// Adds `id` to an ascending sequence, at its place; a sequence that holds
/// `id` already stays as it is.
fn insert_ascending(ids: &mut Vec<i32>, id: i32)
    requires
        strictly_ascending(old(ids)@),
    ensures
        strictly_ascending(final(ids)@),
        forall|c: i32| final(ids)@.contains(c) <==> old(ids)@.contains(c) || c == id,
{
    let at: usize = position_of(ids, id);
    if at < ids.len() && ids[at] == id {
        assert(ids@.contains(id));
    } else {
        ids.insert(at, id);
        proof {
            let before = old(ids)@;
            let after = ids@;
            assert(after == before.insert(at as int, id));
            assert forall|c: i32| after.contains(c) <==> before.contains(c) || c == id by {
                if after.contains(c) {
                    let i = choose|i: int| 0 <= i < after.len() && after[i] == c;
                    if i < at {
                        assert(before[i] == c);
                    } else if i > at {
                        assert(before[i - 1] == c);
                    }
                }
                if before.contains(c) {
                    let i = choose|i: int| 0 <= i < before.len() && before[i] == c;
                    if i < at {
                        assert(after[i] == c);
                    } else {
                        assert(after[i + 1] == c);
                    }
                }
                if c == id {
                    assert(after[at as int] == c);
                }
            }
        }
    }
}

/// Takes `id` out of an ascending sequence; a sequence that does not hold
/// `id` stays as it is.
fn remove_ascending(ids: &mut Vec<i32>, id: i32)
    requires
        strictly_ascending(old(ids)@),
    ensures
        strictly_ascending(final(ids)@),
        forall|c: i32| final(ids)@.contains(c) <==> old(ids)@.contains(c) && c != id,
{
    let at: usize = position_of(ids, id);
    if at < ids.len() && ids[at] == id {
        ids.remove(at);
        proof {
            let before = old(ids)@;
            let after = ids@;
            assert(after == before.remove(at as int));
            assert forall|c: i32| after.contains(c) <==> before.contains(c) && c != id by {
                if after.contains(c) {
                    let i = choose|i: int| 0 <= i < after.len() && after[i] == c;
                    if i < at {
                        assert(before[i] == c);
                    } else {
                        assert(before[i + 1] == c);
                    }
                }
                if before.contains(c) && c != id {
                    let i = choose|i: int| 0 <= i < before.len() && before[i] == c;
                    if i < at {
                        assert(after[i] == c);
                    } else {
                        assert(after[i - 1] == c);
                    }
                }
            }
        }
    } else {
        proof {
            if ids@.contains(id) {
                let i = choose|i: int| 0 <= i < ids@.len() && ids@[i] == id;
                assert(false);
            }
        }
    }
}

/// A second sequence with the same elements.
fn copy_ids(ids: &Vec<i32>) -> (copy: Vec<i32>)
    ensures
        copy@ == ids@,
{
    let mut copy: Vec<i32> = Vec::new();
    let mut next: usize = 0;
    while next < ids.len()
        invariant
            next <= ids@.len(),
            copy@ == ids@.subrange(0, next as int),
        decreases ids@.len() - next,
    {
        copy.push(ids[next]);
        next = next + 1;
        assert(copy@ =~= ids@.subrange(0, next as int));
    }
    assert(ids@.subrange(0, next as int) =~= ids@);
    copy
}

/// For each employee with clients, the ids of those clients in ascending
/// order. An employee without clients has no entry.
pub struct SecondaryIndex {
    entries: AvlTree<Vec<i32>>,
}

impl SecondaryIndex {
    #[verifier::type_invariant]
    spec fn tidy(self) -> bool {
        forall|owner: i32| #[trigger]
            self.entries@.contains_key(owner) ==> strictly_ascending(self.entries@[owner]@)
                && self.entries@[owner]@.len() > 0
    }

    /// The assignments the index records, each as a pair of an employee id
    /// and a client id.
    pub closed spec fn pairs(self) -> Set<(i32, i32)> {
        Set::new(
            |pair: (i32, i32)|
                self.entries@.contains_key(pair.0) && self.entries@[pair.0]@.contains(pair.1),
        )
    }

    /// An index without assignments.
    pub fn new() -> (index: Self)
        ensures
            index.pairs() == Set::<(i32, i32)>::empty(),
    {
        let index = SecondaryIndex { entries: AvlTree::new() };
        assert(index.pairs() =~= Set::<(i32, i32)>::empty());
        index
    }

    /// Records that `client` is assigned to `owner`.
    pub fn assign(&mut self, owner: i32, client: i32)
        ensures
            final(self).pairs() == old(self).pairs().insert((owner, client)),
    {
        proof {
            use_type_invariant(&*self);
        }
        let mut entries: AvlTree<Vec<i32>> = AvlTree::new();
        core::mem::swap(&mut self.entries, &mut entries);
        let ghost before = entries@;
        let mut ids: Vec<i32> = match entries.search(owner) {
            Some(found) => copy_ids(found),
            None => Vec::new(),
        };
        insert_ascending(&mut ids, client);
        proof {
            assert(ids@.contains(client));
        }
        entries.insert(owner, ids);
        self.entries = entries;
        proof {
            assert forall|pair: (i32, i32)|
                self.pairs().contains(pair) <==> old(self).pairs().insert((owner, client)).contains(
                    pair,
                ) by {
                if pair.0 != owner {
                    assert(self.entries@.contains_key(pair.0) == before.contains_key(pair.0));
                }
            }
            assert(self.pairs() =~= old(self).pairs().insert((owner, client)));
        }
    }

    /// Records that `client` is no longer assigned to `owner`.
    pub fn unassign(&mut self, owner: i32, client: i32)
        ensures
            final(self).pairs() == old(self).pairs().remove((owner, client)),
    {
        proof {
            use_type_invariant(&*self);
        }
        let mut entries: AvlTree<Vec<i32>> = AvlTree::new();
        core::mem::swap(&mut self.entries, &mut entries);
        let ghost before = entries@;
        let held: Option<Vec<i32>> = match entries.search(owner) {
            Some(found) => Some(copy_ids(found)),
            None => None,
        };
        match held {
            Some(mut ids) => {
                remove_ascending(&mut ids, client);
                if ids.len() == 0 {
                    let _ = entries.delete(owner);
                } else {
                    entries.insert(owner, ids);
                }
            },
            None => {},
        }
        self.entries = entries;
        proof {
            assert forall|pair: (i32, i32)|
                self.pairs().contains(pair) <==> old(self).pairs().remove((owner, client)).contains(
                    pair,
                ) by {
                if pair.0 != owner {
                    assert(self.entries@.contains_key(pair.0) == before.contains_key(pair.0));
                }
            }
            assert(self.pairs() =~= old(self).pairs().remove((owner, client)));
        }
    }

    /// The ids of the clients assigned to `owner`, in ascending order, or
    /// nothing if no client is assigned to `owner`.
    pub fn clients_of(&self, owner: i32) -> (found: Option<&Vec<i32>>)
        ensures
            found is Some <==> exists|client: i32| self.pairs().contains((owner, client)),
            found is Some ==> strictly_ascending(found->0@),
            found is Some ==> forall|client: i32|
                found->0@.contains(client) <==> self.pairs().contains((owner, client)),
    {
        proof {
            use_type_invariant(self);
        }
        let found = self.entries.search(owner);
        proof {
            if found is Some {
                let ids = found->0@;
                assert(ids.contains(ids[0]));
                assert(self.pairs().contains((owner, ids[0])));
            }
        }
        found
    }
}

} // verus!
