use record_store::avl_tree::AvlTree;
use record_store::errors::ApplicationError;
use record_store::records::{Client, Employee, ServiceChoice};

fn keys_of<T>(tree: &AvlTree<T>) -> Vec<i32> {
    tree.traverse_ascending().iter().map(|entry| entry.0).collect()
}

fn tree_of(keys: &[i32]) -> AvlTree<i32> {
    let mut tree = AvlTree::new();
    for &key in keys {
        tree.insert(key, key * 10);
    }
    tree
}

/// The greatest height an AVL tree of `n` nodes can have.
fn greatest_height(n: usize) -> u64 {
    // fewest(h) is the least number of nodes of a balanced tree of height h.
    let mut fewest_below: usize = 0;
    let mut fewest: usize = 1;
    let mut height: u64 = 0;
    while fewest <= n {
        let next = 1 + fewest + fewest_below;
        fewest_below = fewest;
        fewest = next;
        height += 1;
    }
    height
}

fn client(id: i32, owner: i32) -> Client {
    Client::new(id, format!("client {}", id), ServiceChoice::Unset, owner)
}

#[test]
fn new_tree_is_empty() {
    let tree: AvlTree<i32> = AvlTree::new();
    assert_eq!(tree.height(), 0);
    assert!(tree.traverse_ascending().is_empty());
    assert!(tree.search(1).is_none());
}

#[test]
fn insert_then_search() {
    let tree = tree_of(&[5, 3, 8]);
    assert_eq!(tree.search(5), Some(&50));
    assert_eq!(tree.search(3), Some(&30));
    assert_eq!(tree.search(8), Some(&80));
    assert_eq!(tree.search(4), None);
}

#[test]
fn single_right_rotation() {
    let tree = tree_of(&[3, 2, 1]);
    assert_eq!(tree.height(), 2);
    assert_eq!(keys_of(&tree), vec![1, 2, 3]);
}

#[test]
fn single_left_rotation() {
    let tree = tree_of(&[1, 2, 3]);
    assert_eq!(tree.height(), 2);
    assert_eq!(keys_of(&tree), vec![1, 2, 3]);
}

#[test]
fn double_left_right_rotation() {
    let tree = tree_of(&[3, 1, 2]);
    assert_eq!(tree.height(), 2);
    assert_eq!(keys_of(&tree), vec![1, 2, 3]);
}

#[test]
fn double_right_left_rotation() {
    let tree = tree_of(&[1, 3, 2]);
    assert_eq!(tree.height(), 2);
    assert_eq!(keys_of(&tree), vec![1, 2, 3]);
}

#[test]
fn ascending_inserts_fill_the_tree_level_by_level() {
    let keys: Vec<i32> = (1..=1023).collect();
    let tree = tree_of(&keys);
    assert_eq!(tree.height(), 10);
    assert_eq!(keys_of(&tree), keys);
}

#[test]
fn descending_inserts_fill_the_tree_level_by_level() {
    let keys: Vec<i32> = (1..=127).rev().collect();
    let tree = tree_of(&keys);
    assert_eq!(tree.height(), 7);
    assert_eq!(keys_of(&tree), (1..=127).collect::<Vec<i32>>());
}

#[test]
fn tree_stays_balanced_under_inserts_and_deletes() {
    let mut tree: AvlTree<i32> = AvlTree::new();
    let mut present: Vec<i32> = Vec::new();
    let mut seed: u32 = 12345;
    for step in 0..4000 {
        seed = seed.wrapping_mul(1664525).wrapping_add(1013904223);
        let key = ((seed >> 8) % 500) as i32 - 250;
        if step % 3 == 2 {
            let outcome = tree.delete(key);
            match present.binary_search(&key) {
                Ok(at) => {
                    present.remove(at);
                    assert_eq!(outcome, Ok(()));
                }
                Err(_) => assert_eq!(outcome, Err(ApplicationError::NotFound)),
            }
        } else {
            tree.insert(key, step);
            if let Err(at) = present.binary_search(&key) {
                present.insert(at, key);
            }
        }
        assert!(tree.height() <= greatest_height(present.len()));
        assert_eq!(keys_of(&tree), present);
    }
}

#[test]
fn traversal_is_strictly_increasing_whatever_the_insertion_order() {
    let tree = tree_of(&[50, -7, 12, 99, 0, 3, -100, 42, 7, 1]);
    let keys = keys_of(&tree);
    assert_eq!(keys, vec![-100, -7, 0, 1, 3, 7, 12, 42, 50, 99]);
    for pair in keys.windows(2) {
        assert!(pair[0] < pair[1]);
    }
    let records: Vec<i32> = tree.traverse_ascending().iter().map(|entry| *entry.1).collect();
    assert_eq!(records, vec![-1000, -70, 0, 10, 30, 70, 120, 420, 500, 990]);
}

#[test]
fn traversal_can_be_repeated() {
    let tree = tree_of(&[2, 1, 3]);
    assert_eq!(tree.traverse_ascending(), tree.traverse_ascending());
}

#[test]
fn extreme_keys_are_ordinary_keys() {
    let tree = tree_of(&[i32::MAX, 0, i32::MIN]);
    assert_eq!(keys_of(&tree), vec![i32::MIN, 0, i32::MAX]);
    assert_eq!(tree.search(i32::MIN), Some(&i32::MIN.wrapping_mul(10)));
}

#[test]
fn inserting_a_present_key_replaces_the_record_in_place() {
    let mut tree = tree_of(&[4, 2, 6, 1, 3, 5, 7]);
    let height = tree.height();
    tree.insert(6, -1);
    assert_eq!(tree.search(6), Some(&-1));
    assert_eq!(tree.height(), height);
    assert_eq!(keys_of(&tree), vec![1, 2, 3, 4, 5, 6, 7]);
}

#[test]
fn update_replaces_the_record() {
    let mut tree = tree_of(&[4, 2, 6]);
    assert_eq!(tree.update(2, 22), Ok(()));
    assert_eq!(tree.search(2), Some(&22));
    assert_eq!(tree.height(), 2);
    assert_eq!(keys_of(&tree), vec![2, 4, 6]);
}

#[test]
fn update_of_a_missing_key_fails_and_changes_nothing() {
    let mut tree = tree_of(&[4, 2, 6]);
    assert_eq!(tree.update(5, 55), Err(ApplicationError::NotFound));
    assert_eq!(tree.search(5), None);
    let records: Vec<i32> = tree.traverse_ascending().iter().map(|entry| *entry.1).collect();
    assert_eq!(records, vec![20, 40, 60]);
}

#[test]
fn delete_of_a_leaf() {
    let mut tree = tree_of(&[4, 2, 6]);
    assert_eq!(tree.delete(2), Ok(()));
    assert_eq!(keys_of(&tree), vec![4, 6]);
    assert_eq!(tree.search(2), None);
}

#[test]
fn delete_of_a_node_with_one_child() {
    let mut tree = tree_of(&[4, 2, 6, 7]);
    assert_eq!(tree.delete(6), Ok(()));
    assert_eq!(keys_of(&tree), vec![2, 4, 7]);
    assert_eq!(tree.search(7), Some(&70));
    assert_eq!(tree.height(), 2);
}

#[test]
fn delete_of_a_node_with_two_children_promotes_the_successor() {
    let mut tree = tree_of(&[4, 2, 6, 1, 3, 5, 7]);
    assert_eq!(tree.delete(4), Ok(()));
    assert_eq!(keys_of(&tree), vec![1, 2, 3, 5, 6, 7]);
    assert_eq!(tree.search(5), Some(&50));
    assert_eq!(tree.height(), 3);
}

#[test]
fn delete_rebalances() {
    let mut tree = tree_of(&[2, 1, 3, 4]);
    assert_eq!(tree.height(), 3);
    assert_eq!(tree.delete(1), Ok(()));
    assert_eq!(tree.height(), 2);
    assert_eq!(keys_of(&tree), vec![2, 3, 4]);
}

#[test]
fn delete_of_a_missing_key_fails_and_changes_nothing() {
    let mut tree = tree_of(&[4, 2, 6]);
    assert_eq!(tree.delete(9), Err(ApplicationError::NotFound));
    assert_eq!(keys_of(&tree), vec![2, 4, 6]);
    assert_eq!(tree.height(), 2);
}

#[test]
fn delete_down_to_empty() {
    let mut tree = tree_of(&[1, 2, 3, 4, 5]);
    for key in [3, 1, 5, 2, 4] {
        assert_eq!(tree.delete(key), Ok(()));
    }
    assert_eq!(tree.height(), 0);
    assert!(tree.traverse_ascending().is_empty());
    assert_eq!(tree.delete(3), Err(ApplicationError::NotFound));
}

#[test]
fn deep_clone_has_the_same_records() {
    let mut tree: AvlTree<Client> = AvlTree::new();
    for id in [103, 101, 102] {
        tree.insert(id, client(id, 1));
    }
    let copy = tree.deep_clone();
    assert_eq!(copy.traverse_ascending(), tree.traverse_ascending());
    assert_eq!(copy.height(), tree.height());
}

#[test]
fn clone_is_untouched_by_changes_to_its_source() {
    let mut source: AvlTree<Client> = AvlTree::new();
    for id in 1..=20 {
        source.insert(id, client(id, 1));
    }
    let copy = source.deep_clone();
    let before: Vec<(i32, Client)> =
        copy.traverse_ascending().iter().map(|entry| (entry.0, entry.1.clone())).collect();
    source.insert(21, client(21, 2));
    assert_eq!(source.update(5, client(5, 9)), Ok(()));
    assert_eq!(source.delete(10), Ok(()));
    let after: Vec<(i32, Client)> =
        copy.traverse_ascending().iter().map(|entry| (entry.0, entry.1.clone())).collect();
    assert_eq!(before, after);
    assert_eq!(copy.search(5), Some(&client(5, 1)));
    assert!(copy.search(10).is_some());
    assert!(copy.search(21).is_none());
}

#[test]
fn source_is_untouched_by_changes_to_its_clone() {
    let mut source: AvlTree<Employee> = AvlTree::new();
    for id in 1..=20 {
        source.insert(id, Employee::new(id, format!("employee {}", id)));
    }
    let mut copy = source.deep_clone();
    let before: Vec<(i32, Employee)> =
        source.traverse_ascending().iter().map(|entry| (entry.0, entry.1.clone())).collect();
    copy.insert(0, Employee::new(0, String::from("new")));
    assert_eq!(copy.update(7, Employee::new(7, String::from("renamed"))), Ok(()));
    assert_eq!(copy.delete(20), Ok(()));
    let after: Vec<(i32, Employee)> =
        source.traverse_ascending().iter().map(|entry| (entry.0, entry.1.clone())).collect();
    assert_eq!(before, after);
    assert_eq!(keys_of(&copy), (0..=19).collect::<Vec<i32>>());
}
