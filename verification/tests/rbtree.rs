use algos::storage::rbtree::RBTree;

#[test]
fn new_tree_is_empty() {
    let tree: RBTree<String> = RBTree::new();
    assert_eq!(tree.len(), 0);
    assert!(tree.is_empty());
    assert_eq!(tree.get(&7), None);
    assert!(tree.as_slice().is_empty());
}

#[test]
fn insert_overwrites_the_value_of_a_key() {
    let mut tree: RBTree<&str> = RBTree::new();
    tree.insert(4, "four");
    tree.insert(2, "two");
    tree.insert(4, "vier");
    assert_eq!(tree.len(), 2);
    assert!(!tree.is_empty());
    assert_eq!(tree.get(&4), Some(&"vier"));
    assert_eq!(tree.get(&2), Some(&"two"));
    assert_eq!(tree.get(&3), None);
}

#[test]
fn entries_come_in_ascending_key_order() {
    let mut tree: RBTree<u32> = RBTree::new();
    for k in [50u64, 10, 40, 20, 30, 10, u64::MAX, 0] {
        tree.insert(k, (k % 7) as u32);
    }
    let expected: Vec<(u64, u32)> =
        vec![(0, 0), (10, 3), (20, 6), (30, 2), (40, 5), (50, 1), (u64::MAX, 1)];
    assert_eq!(tree.as_slice(), expected.as_slice());
    // Walking the entries again gives the same sequence.
    assert_eq!(tree.as_slice(), expected.as_slice());
}

#[test]
fn remove_deletes_a_present_key_and_ignores_an_absent_one() {
    let mut tree: RBTree<u32> = RBTree::new();
    tree.insert(1, 100);
    tree.insert(2, 200);
    tree.insert(3, 300);
    assert_eq!(tree.remove(&2), Some(200));
    assert_eq!(tree.remove(&2), None);
    assert_eq!(tree.remove(&9), None);
    assert_eq!(tree.len(), 2);
    assert_eq!(tree.as_slice(), [(1u64, 100u32), (3, 300)].as_slice());
    assert_eq!(tree.get(&2), None);
}

#[test]
fn clear_removes_every_key() {
    let mut tree: RBTree<u32> = RBTree::new();
    for k in 0..20u64 {
        tree.insert(k, 1);
    }
    assert_eq!(tree.len(), 20);
    tree.clear();
    assert_eq!(tree.len(), 0);
    assert_eq!(tree.get(&5), None);
    tree.insert(5, 2);
    assert_eq!(tree.as_slice(), [(5u64, 2u32)].as_slice());
}

#[test]
fn lookups_find_every_key_among_many() {
    let mut tree: RBTree<u64> = RBTree::new();
    let mut k: u64 = 1;
    for _ in 0..500 {
        k = (k * 7919) % 10007;
        tree.insert(k, k * 2);
    }
    let mut k: u64 = 1;
    for _ in 0..500 {
        k = (k * 7919) % 10007;
        assert_eq!(tree.get(&k), Some(&(k * 2)));
    }
    assert_eq!(tree.get(&0), None);
    let entries = tree.as_slice();
    for pair in entries.windows(2) {
        assert!(pair[0].0 < pair[1].0);
    }
}
