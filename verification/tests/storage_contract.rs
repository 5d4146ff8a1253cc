use record_store::avl_tree::AvlTree;
use record_store::errors::ApplicationError;
use record_store::records::{Client, ServiceChoice};
use record_store::storage::Storage;

fn named(id: i32, name: &str) -> Client {
    Client::new(id, String::from(name), ServiceChoice::Unset, 1)
}

fn fill<S: Storage<Client>>(store: &mut S) {
    store.insert(2, named(2, "two"));
    store.insert(1, named(1, "one"));
    store.insert(3, named(3, "three"));
}

fn names<S: Storage<Client>>(store: &S) -> Vec<String> {
    store.traverse_ascending().iter().map(|entry| entry.1.name.clone()).collect()
}

#[test]
fn contract_empty_store_holds_nothing() {
    let store: AvlTree<Client> = Storage::empty();
    assert!(Storage::get(&store, 1).is_none());
    assert!(names(&store).is_empty());
}

#[test]
fn contract_insert_and_get() {
    let mut store: AvlTree<Client> = Storage::empty();
    fill(&mut store);
    assert_eq!(Storage::get(&store, 2), Some(&named(2, "two")));
    assert_eq!(Storage::get(&store, 4), None);
    assert_eq!(names(&store), vec!["one", "two", "three"]);
}

#[test]
fn contract_update() {
    let mut store: AvlTree<Client> = Storage::empty();
    fill(&mut store);
    assert_eq!(Storage::update(&mut store, 3, named(3, "drei")), Ok(()));
    assert_eq!(Storage::update(&mut store, 4, named(4, "vier")), Err(ApplicationError::NotFound));
    assert_eq!(names(&store), vec!["one", "two", "drei"]);
}

#[test]
fn contract_delete() {
    let mut store: AvlTree<Client> = Storage::empty();
    fill(&mut store);
    assert_eq!(Storage::delete(&mut store, 1), Ok(()));
    assert_eq!(Storage::delete(&mut store, 1), Err(ApplicationError::NotFound));
    assert_eq!(names(&store), vec!["two", "three"]);
}

#[test]
fn contract_deep_clone_is_independent() {
    let mut store: AvlTree<Client> = Storage::empty();
    fill(&mut store);
    let mut copy = Storage::deep_clone(&store);
    assert_eq!(Storage::delete(&mut store, 2), Ok(()));
    Storage::insert(&mut copy, 9, named(9, "nine"));
    assert_eq!(names(&store), vec!["one", "three"]);
    assert_eq!(names(&copy), vec!["one", "two", "three", "nine"]);
}
