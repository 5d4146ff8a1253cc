//! What it means to list the records of a store in ascending order of key.

use vstd::prelude::*;

verus! {

/// Each element is smaller than every later one.
pub open spec fn strictly_ascending(keys: Seq<i32>) -> bool {
    forall|i: int, j: int| 0 <= i < j < keys.len() ==> keys[i] < keys[j]
}

/// `entries` lists every record of `records` exactly once, each with its
/// key, smallest key first.
pub open spec fn is_ascending_listing<T>(entries: Seq<(i32, T)>, records: Map<i32, T>) -> bool {
    &&& forall|i: int, j: int| 0 <= i < j < entries.len() ==> entries[i].0 < entries[j].0
    &&& forall|i: int|
        0 <= i < entries.len() ==> records.contains_key(#[trigger] entries[i].0)
            && records[entries[i].0] == entries[i].1
    &&& forall|k: i32|
        records.contains_key(k) ==> exists|i: int|
            0 <= i < entries.len() && #[trigger] entries[i].0 == k
}

/// What a walk that hands out references lists: each key with the record
/// behind the reference.
pub open spec fn entries_of<T>(walk: Seq<(i32, &T)>) -> Seq<(i32, T)> {
    Seq::new(walk.len(), |i: int| (walk[i].0, *walk[i].1))
}

/// Two ascending listings of the same records agree on their first `n`
/// entries, as far as both reach.
proof fn lemma_listings_agree_upto<T>(
    a: Seq<(i32, T)>,
    b: Seq<(i32, T)>,
    records: Map<i32, T>,
    n: int,
)
    requires
        is_ascending_listing(a, records),
        is_ascending_listing(b, records),
        0 <= n <= a.len(),
        n <= b.len(),
    ensures
        forall|i: int| 0 <= i < n ==> a[i] == b[i],
    decreases n,
{
    if n > 0 {
        lemma_listings_agree_upto(a, b, records, n - 1);
        let i = n - 1;
        let ka = a[i].0;
        let kb = b[i].0;
        assert(records.contains_key(ka));
        assert(records.contains_key(kb));
        let j = choose|j: int| 0 <= j < b.len() && #[trigger] b[j].0 == ka;
        let h = choose|h: int| 0 <= h < a.len() && #[trigger] a[h].0 == kb;
        if j < i {
            assert(a[j] == b[j]);
            assert(a[j].0 < a[i].0);
        }
        if h < i {
            assert(a[h] == b[h]);
            assert(b[h].0 < b[i].0);
        }
        if j > i {
            assert(b[i].0 < b[j].0);
        }
        if h > i {
            assert(a[i].0 < a[h].0);
        }
        assert(ka == kb);
        assert(a[i].1 == records[ka]);
        assert(b[i].1 == records[kb]);
    }
}

/// The records of a store determine their ascending listing: two listings
/// of the same records are the same sequence.
pub proof fn lemma_ascending_listing_unique<T>(
    a: Seq<(i32, T)>,
    b: Seq<(i32, T)>,
    records: Map<i32, T>,
)
    requires
        is_ascending_listing(a, records),
        is_ascending_listing(b, records),
    ensures
        a == b,
{
    let n = if a.len() <= b.len() {
        a.len() as int
    } else {
        b.len() as int
    };
    lemma_listings_agree_upto(a, b, records, n);
    if a.len() > n {
        let k = a[n].0;
        assert(records.contains_key(k));
        let j = choose|j: int| 0 <= j < b.len() && #[trigger] b[j].0 == k;
        assert(a[j] == b[j]);
        assert(a[j].0 < a[n].0);
    }
    if b.len() > n {
        let k = b[n].0;
        assert(records.contains_key(k));
        let j = choose|j: int| 0 <= j < a.len() && #[trigger] a[j].0 == k;
        assert(a[j] == b[j]);
        assert(b[j].0 < b[n].0);
    }
    assert(a =~= b);
}

/// An ascending listing has one entry for each key of the records.
pub proof fn lemma_listing_counts<T>(entries: Seq<(i32, T)>, records: Map<i32, T>)
    requires
        is_ascending_listing(entries, records),
    ensures
        records.dom().finite(),
        entries.len() == records.dom().len(),
{
    let keys = Seq::new(entries.len(), |i: int| entries[i].0);
    assert(keys.no_duplicates()) by {
        assert forall|i: int, j: int|
            0 <= i < keys.len() && 0 <= j < keys.len() && i != j implies keys[i] != keys[j] by {
            if i < j {
                assert(entries[i].0 < entries[j].0);
            } else {
                assert(entries[j].0 < entries[i].0);
            }
        }
    }
    assert(keys.to_set() =~= records.dom()) by {
        assert forall|k: i32| keys.to_set().contains(k) <==> records.dom().contains(k) by {
            if keys.to_set().contains(k) {
                let i = choose|i: int| 0 <= i < keys.len() && keys[i] == k;
                assert(records.contains_key(entries[i].0));
            }
            if records.contains_key(k) {
                let i = choose|i: int| 0 <= i < entries.len() && #[trigger] entries[i].0 == k;
                assert(keys[i] == k);
            }
        }
    }
    keys.unique_seq_to_set();
}

} // verus!
