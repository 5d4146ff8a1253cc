use record_store::index::SecondaryIndex;

#[test]
fn new_index_knows_no_owner() {
    let index = SecondaryIndex::new();
    assert_eq!(index.clients_of(1), None);
}

#[test]
fn assigned_clients_are_listed_in_ascending_order() {
    let mut index = SecondaryIndex::new();
    for client in [30, 10, 20, 40, 5] {
        index.assign(1, client);
    }
    assert_eq!(index.clients_of(1), Some(&vec![5, 10, 20, 30, 40]));
    assert_eq!(index.clients_of(2), None);
}

#[test]
fn assigning_twice_lists_once() {
    let mut index = SecondaryIndex::new();
    index.assign(1, 10);
    index.assign(1, 10);
    assert_eq!(index.clients_of(1), Some(&vec![10]));
}

#[test]
fn owners_are_kept_apart() {
    let mut index = SecondaryIndex::new();
    index.assign(1, 10);
    index.assign(2, 20);
    index.assign(1, 30);
    assert_eq!(index.clients_of(1), Some(&vec![10, 30]));
    assert_eq!(index.clients_of(2), Some(&vec![20]));
}

#[test]
fn unassign_removes_one_client() {
    let mut index = SecondaryIndex::new();
    for client in [10, 20, 30] {
        index.assign(1, client);
    }
    index.unassign(1, 20);
    assert_eq!(index.clients_of(1), Some(&vec![10, 30]));
}

#[test]
fn unassigning_the_last_client_removes_the_entry() {
    let mut index = SecondaryIndex::new();
    index.assign(1, 10);
    index.unassign(1, 10);
    assert_eq!(index.clients_of(1), None);
}

#[test]
fn unassigning_what_was_never_assigned_changes_nothing() {
    let mut index = SecondaryIndex::new();
    index.assign(1, 10);
    index.unassign(1, 11);
    index.unassign(2, 10);
    assert_eq!(index.clients_of(1), Some(&vec![10]));
    assert_eq!(index.clients_of(2), None);
}
