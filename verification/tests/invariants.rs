use mapped_tree::MappedTree;

/// Root 0; children of 0 are 1, 2; of 1 are 3, 4; of 2 are 5, 6, 7.
fn sample() -> MappedTree<i32> {
    let mut tree = MappedTree::new();
    tree.reset_root(&0);
    for (key, parent) in [(1, 0), (2, 0), (3, 1), (4, 1), (5, 2), (6, 2), (7, 2)] {
        tree.insert(&key, &parent).unwrap();
    }
    tree
}

/// The keys of `-5..50` that the tree holds.
fn present(tree: &MappedTree<i32>) -> Vec<i32> {
    (-5..50).filter(|key| tree.contains(key)).collect()
}

/// Checks on the keys of `-5..50` everything that holds of every tree.
fn check(tree: &MappedTree<i32>) {
    let keys = present(tree);
    assert_eq!(tree.len(), keys.len());
    let mut parentless = Vec::new();
    for key in &keys {
        match tree.parent(key) {
            Some(parent) => {
                let siblings = tree.children(parent).unwrap();
                assert_eq!(siblings.iter().filter(|c| *c == key).count(), 1);
            },
            None => parentless.push(*key),
        }
        for child in tree.children(key).unwrap() {
            assert_eq!(tree.parent(child), Some(key));
        }
        let holders = keys.iter().filter(|k| tree.children(k).unwrap().contains(key)).count();
        assert!(holders <= 1);
    }
    assert_eq!(tree.root(), parentless.first().copied());
    assert!(parentless.len() <= 1);
    for key in &keys {
        let mut at = *key;
        let mut steps = 0;
        while let Some(above) = tree.parent(&at) {
            at = *above;
            steps += 1;
            assert!(steps <= keys.len());
        }
        assert_eq!(Some(at), tree.root());
    }
}

#[test]
fn invariants_hold_of_the_sample() {
    check(&sample());
}

#[test]
fn invariants_hold_after_each_operation() {
    let mut tree: MappedTree<i32> = MappedTree::new();
    check(&tree);
    tree.reset_root(&0);
    check(&tree);
    for (key, parent) in [(1, 0), (2, 0), (3, 1), (4, 1), (5, 2), (6, 2), (7, 2), (8, 7), (9, 8)] {
        tree.insert(&key, &parent).unwrap();
        check(&tree);
    }
    assert!(tree.insert(&9, &0).is_err());
    check(&tree);
    assert!(tree.insert(&20, &30).is_err());
    check(&tree);
    tree.reset_root(&10);
    check(&tree);
    assert!(tree.remove(&5));
    check(&tree);
    tree.remove_children(&7);
    check(&tree);
    assert!(!tree.remove(&9));
    check(&tree);
    tree.insert(&9, &3).unwrap();
    check(&tree);
    assert!(tree.remove(&1));
    check(&tree);
    tree.remove_children(&10);
    check(&tree);
    assert!(tree.remove(&10));
    check(&tree);
    assert_eq!(tree.len(), 0);
}

#[test]
fn len_counts_the_present_keys() {
    let mut tree = sample();
    assert_eq!(present(&tree), vec![0, 1, 2, 3, 4, 5, 6, 7]);
    assert_eq!(tree.len(), 8);
    tree.remove(&2);
    assert_eq!(present(&tree), vec![0, 1, 3, 4]);
    assert_eq!(tree.len(), 4);
    tree.insert(&40, &4).unwrap();
    assert_eq!(present(&tree), vec![0, 1, 3, 4, 40]);
    assert_eq!(tree.len(), 5);
}

#[test]
fn no_key_has_two_parents() {
    let mut tree = sample();
    assert!(tree.insert(&3, &2).is_err());
    assert_eq!(tree.children(&2), Some(&vec![5, 6, 7]));
    assert_eq!(tree.children(&1), Some(&vec![3, 4]));
    assert_eq!(tree.parent(&3), Some(&1));
}

#[test]
fn links_agree_in_both_directions() {
    let tree = sample();
    assert_eq!(tree.parent(&5), Some(&2));
    assert!(tree.children(&2).unwrap().contains(&5));
    for child in tree.children(&1).unwrap() {
        assert_eq!(tree.parent(child), Some(&1));
    }
}

#[test]
fn removal_cascades_to_every_descendant() {
    let mut tree = sample();
    tree.insert(&8, &3).unwrap();
    tree.insert(&9, &8).unwrap();
    assert!(tree.remove(&1));
    for gone in [1, 3, 4, 8, 9] {
        assert!(!tree.contains(&gone));
    }
    assert_eq!(present(&tree), vec![0, 2, 5, 6, 7]);
}

#[test]
fn removing_what_is_not_there_is_harmless() {
    let mut tree = sample();
    assert!(!tree.remove(&30));
    assert!(!tree.remove(&30));
    assert_eq!(present(&tree), vec![0, 1, 2, 3, 4, 5, 6, 7]);
    assert_eq!(tree.len(), 8);
}

#[test]
fn parent_links_lead_to_the_root() {
    let tree = sample();
    assert_eq!(tree.root(), Some(0));
    let mut at = 7;
    let mut path = vec![at];
    while let Some(above) = tree.parent(&at) {
        at = *above;
        path.push(at);
    }
    assert_eq!(path, vec![7, 2, 0]);
    assert_eq!(tree.parent(&0), None);
}

#[test]
fn rebase_hands_the_children_over() {
    let mut tree = sample();
    let before = tree.children(&0).unwrap().clone();
    assert_eq!(tree.reset_root(&9), Some(0));
    assert_eq!(tree.parent(&9), None);
    assert_eq!(tree.children(&9), Some(&before));
    for child in &before {
        assert_eq!(tree.parent(child), Some(&9));
    }
    assert!(!tree.contains(&0));
    assert_eq!(present(&tree), vec![1, 2, 3, 4, 5, 6, 7, 9]);
}
