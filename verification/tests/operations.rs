use mapped_tree::{InsertError, MappedTree};

/// Root 0; children of 0 are 1, 2; of 1 are 3, 4; of 2 are 5, 6, 7.
fn eight() -> MappedTree<i32> {
    let mut tree = MappedTree::new();
    assert_eq!(tree.reset_root(&0), None);
    for (key, parent) in [(1, 0), (2, 0), (3, 1), (4, 1), (5, 2), (6, 2), (7, 2)] {
        assert_eq!(tree.insert(&key, &parent), Ok(()));
    }
    tree
}

#[test]
fn eight_keys_are_counted() {
    let tree = eight();
    assert_eq!(tree.len(), 8);
    assert_eq!(tree.parent(&6), Some(&2));
    assert_eq!(tree.parent(&2), Some(&0));
}

#[test]
fn removing_a_leaf_takes_one_key() {
    let mut tree = eight();
    assert!(tree.remove(&6));
    assert!(!tree.contains(&6));
    assert_eq!(tree.len(), 7);
}

#[test]
fn removing_children_keeps_the_key() {
    let mut tree = eight();
    tree.remove_children(&2);
    assert!(!tree.contains(&5));
    assert!(!tree.contains(&6));
    assert!(!tree.contains(&7));
    assert_eq!(tree.children(&2), Some(&vec![]));
    assert!(tree.contains(&2));
    assert_eq!(tree.len(), 5);
}

#[test]
fn new_tree_is_empty() {
    let tree: MappedTree<i32> = MappedTree::new();
    assert_eq!(tree.len(), 0);
    assert_eq!(tree.root(), None);
    assert_eq!(tree.parent(&0), None);
    assert_eq!(tree.children(&0), None);
    assert!(!tree.contains(&0));
}

#[test]
fn with_capacity_is_empty() {
    let mut tree: MappedTree<u64> = MappedTree::with_capacity(64);
    assert_eq!(tree.len(), 0);
    assert_eq!(tree.root(), None);
    assert_eq!(tree.reset_root(&9), None);
    assert_eq!(tree.insert(&10, &9), Ok(()));
    assert_eq!(tree.len(), 2);
}

#[test]
fn default_is_empty() {
    let tree: MappedTree<u8> = MappedTree::default();
    assert_eq!(tree.len(), 0);
    assert_eq!(tree.root(), None);
    assert!(!tree.contains(&0));
}

#[test]
fn reset_root_on_empty_tree_plants_the_key() {
    let mut tree: MappedTree<i32> = MappedTree::new();
    assert_eq!(tree.reset_root(&42), None);
    assert_eq!(tree.len(), 1);
    assert!(tree.contains(&42));
    assert_eq!(tree.root(), Some(42));
    assert_eq!(tree.parent(&42), None);
    assert_eq!(tree.children(&42), Some(&vec![]));
}

#[test]
fn reset_root_replaces_the_root() {
    let mut tree = eight();
    assert_eq!(tree.reset_root(&100), Some(0));
    assert_eq!(tree.len(), 8);
    assert!(!tree.contains(&0));
    assert!(tree.contains(&100));
    assert_eq!(tree.root(), Some(100));
    assert_eq!(tree.parent(&100), None);
    assert_eq!(tree.children(&100), Some(&vec![1, 2]));
    assert_eq!(tree.parent(&1), Some(&100));
    assert_eq!(tree.parent(&2), Some(&100));
    assert_eq!(tree.parent(&3), Some(&1));
    assert_eq!(tree.children(&1), Some(&vec![3, 4]));
    assert_eq!(tree.children(&2), Some(&vec![5, 6, 7]));
}

#[test]
fn reset_root_to_the_root_changes_nothing() {
    let mut tree = eight();
    assert_eq!(tree.reset_root(&0), Some(0));
    assert_eq!(tree.len(), 8);
    assert_eq!(tree.root(), Some(0));
    assert_eq!(tree.children(&0), Some(&vec![1, 2]));
    assert_eq!(tree.parent(&1), Some(&0));
    assert_eq!(tree.parent(&2), Some(&0));
}

#[test]
fn reset_root_of_a_lone_root() {
    let mut tree: MappedTree<i32> = MappedTree::new();
    tree.reset_root(&1);
    assert_eq!(tree.reset_root(&2), Some(1));
    assert_eq!(tree.len(), 1);
    assert!(!tree.contains(&1));
    assert_eq!(tree.root(), Some(2));
    assert_eq!(tree.children(&2), Some(&vec![]));
}

#[test]
fn insert_appends_in_order() {
    let mut tree: MappedTree<i32> = MappedTree::new();
    tree.reset_root(&0);
    assert_eq!(tree.insert(&3, &0), Ok(()));
    assert_eq!(tree.insert(&1, &0), Ok(()));
    assert_eq!(tree.insert(&2, &0), Ok(()));
    assert_eq!(tree.children(&0), Some(&vec![3, 1, 2]));
    assert_eq!(tree.children(&3), Some(&vec![]));
    assert_eq!(tree.parent(&3), Some(&0));
    assert_eq!(tree.len(), 4);
}

#[test]
fn insert_refuses_a_present_key() {
    let mut tree = eight();
    assert_eq!(tree.insert(&6, &1), Err(InsertError::DuplicateKey));
    assert_eq!(tree.len(), 8);
    assert_eq!(tree.parent(&6), Some(&2));
    assert_eq!(tree.children(&1), Some(&vec![3, 4]));
    assert_eq!(tree.children(&2), Some(&vec![5, 6, 7]));
}

#[test]
fn insert_refuses_the_root_as_key() {
    let mut tree = eight();
    assert_eq!(tree.insert(&0, &7), Err(InsertError::DuplicateKey));
    assert_eq!(tree.parent(&0), None);
    assert_eq!(tree.children(&7), Some(&vec![]));
    assert_eq!(tree.len(), 8);
}

#[test]
fn insert_refuses_an_absent_parent() {
    let mut tree = eight();
    assert_eq!(tree.insert(&8, &9), Err(InsertError::UnknownParent));
    assert_eq!(tree.len(), 8);
    assert!(!tree.contains(&8));
    assert!(!tree.contains(&9));
}

#[test]
fn insert_into_empty_tree_has_no_parent_to_name() {
    let mut tree: MappedTree<i32> = MappedTree::new();
    assert_eq!(tree.insert(&1, &0), Err(InsertError::UnknownParent));
    assert_eq!(tree.insert(&1, &1), Err(InsertError::UnknownParent));
    assert_eq!(tree.len(), 0);
    assert_eq!(tree.root(), None);
}

#[test]
fn insert_reports_the_duplicate_before_the_parent() {
    let mut tree = eight();
    assert_eq!(tree.insert(&3, &99), Err(InsertError::DuplicateKey));
    assert_eq!(tree.len(), 8);
}

#[test]
fn insert_error_messages() {
    assert_eq!(
        InsertError::DuplicateKey.message(),
        "mapped tree MUST contain UNIQUE elements only"
    );
    assert_eq!(
        InsertError::UnknownParent.message(),
        "mapped tree doesn't contain specified parent"
    );
    assert_ne!(InsertError::DuplicateKey, InsertError::UnknownParent);
}

#[test]
fn remove_absent_key_changes_nothing() {
    let mut tree = eight();
    assert!(!tree.remove(&8));
    assert_eq!(tree.len(), 8);
    assert_eq!(tree.root(), Some(0));
    assert_eq!(tree.children(&0), Some(&vec![1, 2]));
    assert_eq!(tree.children(&1), Some(&vec![3, 4]));
    assert_eq!(tree.children(&2), Some(&vec![5, 6, 7]));
}

#[test]
fn remove_from_empty_tree() {
    let mut tree: MappedTree<i32> = MappedTree::new();
    assert!(!tree.remove(&0));
    tree.remove_children(&0);
    assert_eq!(tree.len(), 0);
}

#[test]
fn remove_takes_the_whole_subtree() {
    let mut tree = eight();
    assert!(tree.remove(&2));
    for gone in [2, 5, 6, 7] {
        assert!(!tree.contains(&gone));
    }
    for kept in [0, 1, 3, 4] {
        assert!(tree.contains(&kept));
    }
    assert_eq!(tree.len(), 4);
    assert_eq!(tree.children(&0), Some(&vec![1]));
    assert_eq!(tree.children(&1), Some(&vec![3, 4]));
    assert_eq!(tree.parent(&3), Some(&1));
}

#[test]
fn remove_moves_the_last_child_into_the_gap() {
    let mut tree = eight();
    assert!(tree.remove(&5));
    assert_eq!(tree.children(&2), Some(&vec![7, 6]));
    assert!(tree.remove(&1));
    assert_eq!(tree.children(&0), Some(&vec![2]));
    assert_eq!(tree.len(), 4);
}

#[test]
fn remove_of_the_last_child_keeps_the_order() {
    let mut tree = eight();
    assert!(tree.remove(&7));
    assert_eq!(tree.children(&2), Some(&vec![5, 6]));
    assert!(tree.remove(&6));
    assert_eq!(tree.children(&2), Some(&vec![5]));
    assert!(tree.remove(&5));
    assert_eq!(tree.children(&2), Some(&vec![]));
    assert_eq!(tree.len(), 5);
}

#[test]
fn remove_of_the_root_empties_the_tree() {
    let mut tree = eight();
    assert!(tree.remove(&0));
    assert_eq!(tree.len(), 0);
    assert_eq!(tree.root(), None);
    for key in 0..8 {
        assert!(!tree.contains(&key));
    }
    assert_eq!(tree.reset_root(&3), None);
    assert_eq!(tree.len(), 1);
    assert_eq!(tree.root(), Some(3));
}

#[test]
fn remove_twice_finds_nothing_the_second_time() {
    let mut tree = eight();
    assert!(tree.remove(&1));
    assert!(!tree.remove(&1));
    assert!(!tree.remove(&3));
    assert_eq!(tree.len(), 5);
}

#[test]
fn removed_key_can_be_inserted_again() {
    let mut tree = eight();
    assert!(tree.remove(&1));
    assert_eq!(tree.insert(&1, &7), Ok(()));
    assert_eq!(tree.parent(&1), Some(&7));
    assert_eq!(tree.children(&1), Some(&vec![]));
    assert_eq!(tree.insert(&3, &1), Ok(()));
    assert_eq!(tree.len(), 7);
}

#[test]
fn remove_children_of_absent_key_changes_nothing() {
    let mut tree = eight();
    tree.remove_children(&9);
    assert_eq!(tree.len(), 8);
    assert_eq!(tree.children(&0), Some(&vec![1, 2]));
}

#[test]
fn remove_children_of_a_leaf_changes_nothing() {
    let mut tree = eight();
    tree.remove_children(&4);
    assert_eq!(tree.len(), 8);
    assert_eq!(tree.children(&4), Some(&vec![]));
    assert_eq!(tree.parent(&4), Some(&1));
    assert_eq!(tree.children(&1), Some(&vec![3, 4]));
}

#[test]
fn remove_children_of_the_root_leaves_the_root() {
    let mut tree = eight();
    tree.remove_children(&0);
    assert_eq!(tree.len(), 1);
    assert!(tree.contains(&0));
    assert_eq!(tree.root(), Some(0));
    assert_eq!(tree.children(&0), Some(&vec![]));
    for key in 1..8 {
        assert!(!tree.contains(&key));
    }
}

#[test]
fn remove_children_reaches_every_level() {
    let mut tree = eight();
    assert_eq!(tree.insert(&8, &6), Ok(()));
    assert_eq!(tree.insert(&9, &8), Ok(()));
    assert_eq!(tree.insert(&10, &9), Ok(()));
    assert_eq!(tree.len(), 11);
    tree.remove_children(&2);
    for gone in [5, 6, 7, 8, 9, 10] {
        assert!(!tree.contains(&gone));
    }
    assert_eq!(tree.len(), 5);
    assert_eq!(tree.parent(&2), Some(&0));
}

#[test]
fn long_chain_is_removed_without_recursion() {
    let mut tree: MappedTree<u32> = MappedTree::new();
    tree.reset_root(&0);
    let depth: u32 = 200_000;
    for key in 1..=depth {
        assert_eq!(tree.insert(&key, &(key - 1)), Ok(()));
    }
    assert_eq!(tree.len(), 200_001);
    assert_eq!(tree.root(), Some(0));
    assert!(tree.remove(&1));
    assert_eq!(tree.len(), 1);
    assert!(!tree.contains(&depth));
    assert_eq!(tree.children(&0), Some(&vec![]));
}

#[test]
fn keys_that_are_cloned_not_copied() {
    let mut tree: MappedTree<String> = MappedTree::new();
    let root = String::from("root");
    let left = String::from("left");
    let right = String::from("right");
    assert_eq!(tree.reset_root(&root), None);
    assert_eq!(tree.insert(&left, &root), Ok(()));
    assert_eq!(tree.insert(&right, &root), Ok(()));
    assert_eq!(tree.insert(&String::from("leaf"), &left), Ok(()));
    assert_eq!(tree.len(), 4);
    assert_eq!(tree.parent(&String::from("leaf")), Some(&left));
    assert_eq!(tree.root(), Some(root.clone()));
    assert!(tree.remove(&left));
    assert_eq!(tree.children(&root), Some(&vec![right.clone()]));
    assert_eq!(tree.reset_root(&String::from("top")), Some(root));
    assert_eq!(tree.parent(&right), Some(&String::from("top")));
}
