//! The storage contract: what a facade may ask of the store behind it.
//!
//! The contract speaks of an integer key and a record of any kind. It is
//! stated over the records a store holds, each under its key, and says
//! nothing of how they are held.

use vstd::prelude::*;
use crate::avl_tree::AvlTree;
use crate::errors::ApplicationError;
use crate::listing::{entries_of, is_ascending_listing, lemma_ascending_listing_unique};
use crate::records::Record;

verus! {

/// A keyed store of records that can be copied in full.
pub trait Storage<T: Record>: Sized {
    /// The records of the store, each under its key.
    spec fn contents(&self) -> Map<i32, T>;

    /// A store without records.
    fn empty() -> (store: Self)
        ensures
            store.contents() == Map::<i32, T>::empty(),
    ;

    /// Files `record` under `key`, in place of any record already there.
    fn insert(&mut self, key: i32, record: T)
        ensures
            final(self).contents() == old(self).contents().insert(key, record),
    ;

    /// The record filed under `key`, if there is one.
    fn get(&self, key: i32) -> (found: Option<&T>)
        ensures
            found is Some <==> self.contents().contains_key(key),
            found is Some ==> *found->0 == self.contents()[key],
    ;

    /// Puts `record` in place of the record filed under `key`; fails, and
    /// leaves the records as they are, if there is none.
    fn update(&mut self, key: i32, record: T) -> (outcome: Result<(), ApplicationError>)
        ensures
            outcome is Ok <==> old(self).contents().contains_key(key),
            outcome is Ok ==> final(self).contents() == old(self).contents().insert(key, record),
            outcome is Err ==> outcome == Err::<(), ApplicationError>(ApplicationError::NotFound)
                && final(self).contents() == old(self).contents(),
    ;

    /// Removes the record filed under `key`; fails, and leaves the records
    /// as they are, if there is none.
    fn delete(&mut self, key: i32) -> (outcome: Result<(), ApplicationError>)
        ensures
            outcome is Ok <==> old(self).contents().contains_key(key),
            outcome is Ok ==> final(self).contents() == old(self).contents().remove(key),
            outcome is Err ==> outcome == Err::<(), ApplicationError>(ApplicationError::NotFound)
                && final(self).contents() == old(self).contents(),
    ;

    /// Every record with its key, in ascending order of key.
    fn traverse_ascending(&self) -> (walk: Vec<(i32, &T)>)
        ensures
            is_ascending_listing(entries_of(walk@), self.contents()),
    ;

    /// A second store with the same records that shares nothing with this
    /// one: whatever happens to either afterwards, the other keeps its
    /// records.
    fn deep_clone(&self) -> (copy: Self)
        ensures
            copy.contents() == self.contents(),
    ;
}

/// A copy is independent of its source: as long as the copy itself is not
/// changed, a walk of it lists what a walk of the source listed when the
/// copy was made, whatever the source holds by then.
pub proof fn lemma_copy_is_independent<T: Record, S: Storage<T>>(
    source_at_copy: S,
    source_later: S,
    copy: S,
    walk_of_source_at_copy: Seq<(i32, T)>,
    walk_of_copy_later: Seq<(i32, T)>,
)
    requires
        copy.contents() == source_at_copy.contents(),
        is_ascending_listing(walk_of_source_at_copy, source_at_copy.contents()),
        is_ascending_listing(walk_of_copy_later, copy.contents()),
    ensures
        walk_of_copy_later == walk_of_source_at_copy,
{
    lemma_ascending_listing_unique(
        walk_of_copy_later,
        walk_of_source_at_copy,
        copy.contents(),
    );
}

impl<T: Record> Storage<T> for AvlTree<T> {
    open spec fn contents(&self) -> Map<i32, T> {
        self@
    }

    fn empty() -> (store: Self) {
        AvlTree::new()
    }

    fn insert(&mut self, key: i32, record: T) {
        AvlTree::insert(self, key, record)
    }

    fn get(&self, key: i32) -> (found: Option<&T>) {
        self.search(key)
    }

    fn update(&mut self, key: i32, record: T) -> (outcome: Result<(), ApplicationError>) {
        AvlTree::update(self, key, record)
    }

    fn delete(&mut self, key: i32) -> (outcome: Result<(), ApplicationError>) {
        AvlTree::delete(self, key)
    }

    fn traverse_ascending(&self) -> (walk: Vec<(i32, &T)>) {
        AvlTree::traverse_ascending(self)
    }

    fn deep_clone(&self) -> (copy: Self) {
        AvlTree::deep_clone(self)
    }
}

} // verus!
