use b_tree::{BTree, BTreeError};

#[test]
fn order_below_three_is_refused() {
    assert!(matches!(BTree::<i32>::try_new(2), Err(BTreeError::InvalidOrder)));
    assert!(matches!(BTree::<i32>::try_new(0), Err(BTreeError::InvalidOrder)));
    let tree = BTree::<i32>::try_new(3);
    assert!(tree.is_ok());
    assert!(!tree.unwrap().search(1));
}

#[test]
fn delete_from_new_tree_reports_empty() {
    let mut btree: BTree<i32> = BTree::new(3);
    assert_eq!(btree.delete(10), Err(BTreeError::EmptyTree));
    assert!(!btree.search(10));
}

#[test]
fn delete_from_emptied_tree_reports_empty() {
    let mut btree: BTree<i32> = BTree::new(4);
    btree.insert(1);
    assert_eq!(btree.delete(1), Ok(()));
    assert_eq!(btree.delete(1), Err(BTreeError::EmptyTree));
}

#[test]
fn delete_of_absent_value_reports_not_found_and_keeps_tree() {
    let mut btree = BTree::new(3);
    btree.insert(10);
    btree.insert(20);
    assert_eq!(btree.delete(15), Err(BTreeError::NotFound));
    assert!(btree.search(10));
    assert!(btree.search(20));
    assert!(!btree.search(15));
    assert_eq!(btree.traverse(), vec![10, 20]);
}

#[test]
fn duplicate_insert_keeps_one_copy() {
    let mut btree = BTree::new(3);
    for _ in 0..3 {
        btree.insert(7);
    }
    btree.insert(3);
    btree.insert(7);
    assert_eq!(btree.traverse(), vec![3, 7]);
    assert_eq!(btree.delete(7), Ok(()));
    assert!(!btree.search(7));
    assert_eq!(btree.delete(7), Err(BTreeError::NotFound));
}

#[test]
fn insert_then_delete_restores_contents() {
    for order in 3..=8 {
        let mut btree = BTree::new(order);
        for i in (0..60).map(|i| (i * 37) % 101) {
            btree.insert(i);
        }
        let before = btree.traverse();
        btree.insert(1000);
        assert!(btree.search(1000));
        assert_eq!(btree.delete(1000), Ok(()));
        assert_eq!(btree.traverse(), before);
    }
}

#[test]
fn delete_everything_in_shuffled_order() {
    for order in 3..=9 {
        let mut btree = BTree::new(order);
        let values: Vec<i32> = (0..80).map(|i| (i * 53) % 97).collect();
        for v in &values {
            btree.insert(*v);
        }
        for v in values.iter().rev().step_by(2).chain(values.iter().step_by(2)) {
            let _ = btree.delete(*v);
        }
        for v in &values {
            assert!(!btree.search(*v));
        }
        assert!(btree.traverse().is_empty());
    }
}

#[test]
fn traversal_is_sorted_after_mixed_operations() {
    let mut btree = BTree::new(4);
    for i in (0..200).map(|i| (i * 71) % 211) {
        btree.insert(i);
    }
    for i in (0..200).step_by(3) {
        let _ = btree.delete((i * 71) % 211);
    }
    let keys = btree.traverse();
    for w in keys.windows(2) {
        assert!(w[0] < w[1]);
    }
    let mut expected: Vec<i32> = (0..200).filter(|i| i % 3 != 0).map(|i| (i * 71) % 211).collect();
    expected.sort();
    assert_eq!(keys, expected);
}

#[test]
fn scenario_order_three_root_split() {
    let mut btree = BTree::new(3);
    btree.insert(10);
    btree.insert(20);
    btree.insert(30);
    for v in [10, 20, 30] {
        assert!(btree.search(v));
    }
    assert_eq!(btree.traverse(), vec![10, 20, 30]);
}

#[test]
fn scenario_order_three_delete_first_of_ten() {
    let mut btree = BTree::new(3);
    for i in 1..=10 {
        btree.insert(i);
    }
    assert_eq!(btree.delete(1), Ok(()));
    assert!(!btree.search(1));
    for i in 2..=10 {
        assert!(btree.search(i));
    }
}

#[test]
fn scenario_order_three_shrinks_to_single_leaf() {
    let mut btree = BTree::new(3);
    btree.insert(1);
    btree.insert(2);
    btree.insert(3);
    assert_eq!(btree.delete(1), Ok(()));
    assert_eq!(btree.delete(2), Ok(()));
    assert!(btree.search(3));
    assert_eq!(btree.traverse(), vec![3]);
}

#[test]
fn strings_order_by_bytes() {
    let mut btree = BTree::new(3);
    for w in ["pear", "apple", "Zebra", "applesauce", "", "\u{e9}clair", "banana"] {
        btree.insert(w.to_string());
    }
    let keys = btree.traverse();
    let mut expected: Vec<String> =
        ["pear", "apple", "Zebra", "applesauce", "", "\u{e9}clair", "banana"].iter().map(|s| s.to_string()).collect();
    expected.sort();
    assert_eq!(keys, expected);
    assert!(btree.search(String::new()));
    assert!(!btree.search("appl".to_string()));
}

#[test]
fn wide_integer_keys() {
    let mut btree: BTree<u64> = BTree::new(6);
    for i in 0..100u64 {
        btree.insert(u64::MAX - i * 3);
    }
    assert!(btree.search(u64::MAX));
    assert!(!btree.search(u64::MAX - 1));
    assert_eq!(btree.delete(u64::MAX - 30), Ok(()));
    assert!(!btree.search(u64::MAX - 30));
    let keys = btree.traverse();
    assert_eq!(keys.len(), 99);
    assert_eq!(keys[0], u64::MAX - 297);
    assert_eq!(keys[98], u64::MAX);
}

#[test]
fn negative_keys_order_below_positive() {
    let mut btree: BTree<i64> = BTree::new(4);
    for v in [5i64, -3, 0, -100, 42, -1] {
        btree.insert(v);
    }
    assert_eq!(btree.traverse(), vec![-100, -3, -1, 0, 5, 42]);
    assert_eq!(btree.delete(-3), Ok(()));
    assert_eq!(btree.traverse(), vec![-100, -1, 0, 5, 42]);
}

#[test]
fn order_three_merge_then_more_work() {
    let mut btree = BTree::new(3);
    for i in 1..=8 {
        btree.insert(i);
    }
    assert_eq!(btree.delete(5), Ok(()));
    for i in 9..=20 {
        btree.insert(i);
    }
    for i in [1, 8, 13] {
        assert_eq!(btree.delete(i), Ok(()));
    }
    let expected: Vec<i32> = (1..=20).filter(|i| ![1, 5, 8, 13].contains(i)).collect();
    assert_eq!(btree.traverse(), expected);
    for i in 1..=20 {
        assert_eq!(btree.search(i), expected.contains(&i));
    }
}

#[test]
fn odd_order_stays_correct_after_merges_and_reinserts() {
    for order in [3usize, 5, 7] {
        let mut btree = BTree::new(order);
        for i in 1..=40 {
            btree.insert(i);
        }
        for i in (2..=40).step_by(3) {
            assert_eq!(btree.delete(i), Ok(()));
        }
        for i in 41..=120 {
            btree.insert(i);
        }
        for i in 1..=120 {
            let deleted = i <= 40 && i % 3 == 2;
            assert_eq!(btree.search(i), !deleted);
        }
        let keys = btree.traverse();
        assert!(keys.windows(2).all(|w| w[0] < w[1]));
        assert_eq!(keys.len(), 120 - 13);
    }
}
