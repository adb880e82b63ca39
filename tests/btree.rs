use b_tree::BTree;

#[test]
fn test_new_btree() {
    let btree: BTree<i32> = BTree::new(3);
    assert!(!btree.search(5));
}

#[test]
fn test_insert_causes_root_split() {
    let mut btree = BTree::new(3);
    btree.insert(10);
    btree.insert(20);
    btree.insert(30);

    assert!(btree.search(10));
    assert!(btree.search(20));
    assert!(btree.search(30));
}

#[test]
fn test_insert_ascending_order() {
    let mut btree = BTree::new(3);
    for i in 1..=10 {
        btree.insert(i);
    }

    for i in 1..=10 {
        assert!(btree.search(i));
    }
    assert!(!btree.search(11));
}

#[test]
fn test_insert_descending_order() {
    let mut btree = BTree::new(3);
    for i in (1..=10).rev() {
        btree.insert(i);
    }

    for i in 1..=10 {
        assert!(btree.search(i));
    }
}

#[test]
fn test_insert_random_order() {
    let mut btree = BTree::new(5);
    let values = vec![50, 30, 70, 20, 40, 60, 80, 10, 90];

    for val in &values {
        btree.insert(*val);
    }

    for val in &values {
        assert!(btree.search(*val));
    }
    assert!(!btree.search(25));
}

#[test]
fn test_traverse_order() {
    let mut btree = BTree::new(3);
    btree.insert(5);
    btree.insert(3);
    btree.insert(7);
    btree.insert(1);
    btree.insert(9);

    let keys = btree.traverse();
    println!("\nTraversal output: {:?}", keys);
    assert_eq!(keys, vec![1, 3, 5, 7, 9]);
}

#[test]
fn test_search_empty_tree() {
    let btree: BTree<i32> = BTree::new(3);
    assert!(!btree.search(10));
}

#[test]
fn test_larger_order() {
    let mut btree = BTree::new(5);
    for i in 1..=20 {
        btree.insert(i);
    }

    for i in 1..=20 {
        assert!(btree.search(i));
    }
}

#[test]
fn test_duplicate_search() {
    let mut btree = BTree::new(3);
    btree.insert(10);
    btree.insert(20);

    assert!(btree.search(10));
    assert!(btree.search(10));
    assert!(btree.search(20));
}

#[test]
fn test_string_btree() {
    let mut btree = BTree::new(3);
    btree.insert("apple".to_string());
    btree.insert("banana".to_string());
    btree.insert("cherry".to_string());

    assert!(btree.search("apple".to_string()));
    assert!(btree.search("banana".to_string()));
    assert!(!btree.search("date".to_string()));
}

#[test]
fn test_visualize_structure() {
    let mut btree = BTree::new(3);
    for i in 1..=7 {
        btree.insert(i);
    }
    assert_eq!(btree.traverse(), vec![1, 2, 3, 4, 5, 6, 7]);
}

#[test]
fn test_delete_from_leaf_simple() {
    let mut btree = BTree::new(3);
    btree.insert(10);
    btree.insert(20);

    assert_eq!(btree.delete(10), Ok(()));
    assert!(!btree.search(10));
    assert!(btree.search(20));
}

#[test]
fn test_delete_single_element() {
    let mut btree = BTree::new(3);
    btree.insert(10);

    assert_eq!(btree.delete(10), Ok(()));
    assert!(!btree.search(10));
}

#[test]
fn test_delete_from_leaf_with_sufficient_keys() {
    let mut btree = BTree::new(5);
    for i in 1..=10 {
        btree.insert(i);
    }

    assert_eq!(btree.delete(5), Ok(()));
    assert!(!btree.search(5));
    for i in 1..=10 {
        if i != 5 {
            assert!(btree.search(i));
        }
    }
}

#[test]
fn test_delete_causes_rotation_left() {
    let mut btree = BTree::new(3);
    for i in 1..=7 {
        btree.insert(i);
    }

    assert_eq!(btree.delete(1), Ok(()));

    assert!(!btree.search(1));
    for i in 2..=7 {
        assert!(btree.search(i));
    }
}

#[test]
fn test_delete_causes_rotation_right() {
    let mut btree = BTree::new(3);
    for i in (1..=7).rev() {
        btree.insert(i);
    }

    assert_eq!(btree.delete(7), Ok(()));

    assert!(!btree.search(7));
    for i in 1..=6 {
        assert!(btree.search(i));
    }
}

#[test]
fn test_delete_causes_merge() {
    let mut btree = BTree::new(3);
    for i in 1..=6 {
        btree.insert(i);
    }

    assert_eq!(btree.delete(6), Ok(()));
    assert_eq!(btree.delete(5), Ok(()));

    assert!(!btree.search(6));
    assert!(!btree.search(5));
    for i in 1..=4 {
        assert!(btree.search(i));
    }
}

#[test]
fn test_delete_from_internal_node_case_2a() {
    let mut btree = BTree::new(3);
    for i in 1..=10 {
        btree.insert(i);
    }

    assert_eq!(btree.delete(4), Ok(()));

    assert!(!btree.search(4));
    for i in 1..=10 {
        if i != 4 {
            assert!(btree.search(i));
        }
    }
}

#[test]
fn test_delete_from_internal_node_case_2b() {
    let mut btree = BTree::new(3);
    for i in 1..=10 {
        btree.insert(i);
    }

    assert_eq!(btree.delete(7), Ok(()));

    assert!(!btree.search(7));
    for i in 1..=10 {
        if i != 7 {
            assert!(btree.search(i));
        }
    }
}

#[test]
fn test_delete_from_internal_node_case_2c() {
    let mut btree = BTree::new(3);
    for i in 1..=7 {
        btree.insert(i);
    }

    assert_eq!(btree.delete(4), Ok(()));

    assert!(!btree.search(4));
}

#[test]
fn test_delete_multiple_sequential() {
    let mut btree = BTree::new(3);
    for i in 1..=10 {
        btree.insert(i);
    }

    for i in 1..=5 {
        println!("\nDeleting {}", i);
        assert_eq!(btree.delete(i), Ok(()));
    }

    for i in 1..=5 {
        assert!(!btree.search(i));
    }
    for i in 6..=10 {
        assert!(btree.search(i));
    }
}

#[test]
fn test_delete_all_elements() {
    let mut btree = BTree::new(3);
    let values = vec![1, 2, 3, 4, 5, 6, 7];

    for val in &values {
        btree.insert(*val);
    }

    for val in &values {
        assert_eq!(btree.delete(*val), Ok(()));
        assert!(!btree.search(*val));
    }
}

#[test]
fn test_delete_descending_order() {
    let mut btree = BTree::new(3);
    for i in 1..=10 {
        btree.insert(i);
    }

    for i in (1..=10).rev() {
        assert_eq!(btree.delete(i), Ok(()));
    }

    for i in 1..=10 {
        assert!(!btree.search(i));
    }
}

#[test]
fn test_delete_random_order() {
    let mut btree = BTree::new(5);
    let values = vec![50, 30, 70, 20, 40, 60, 80, 10, 90];

    for val in &values {
        btree.insert(*val);
    }

    let delete_order = vec![30, 70, 10, 90, 50];
    for val in &delete_order {
        assert_eq!(btree.delete(*val), Ok(()));
        assert!(!btree.search(*val));
    }

    for val in &values {
        if delete_order.contains(val) {
            assert!(!btree.search(*val));
        } else {
            assert!(btree.search(*val));
        }
    }
}

#[test]
fn test_delete_root_shrinkage() {
    let mut btree = BTree::new(3);
    for i in 1..=3 {
        btree.insert(i);
    }

    assert_eq!(btree.delete(1), Ok(()));
    assert_eq!(btree.delete(2), Ok(()));

    assert!(btree.search(3));
}

#[test]
fn test_delete_with_larger_order() {
    let mut btree = BTree::new(7);
    for i in 1..=50 {
        btree.insert(i);
    }

    for i in (1..=50).step_by(3) {
        assert_eq!(btree.delete(i), Ok(()));
    }

    for i in 1..=50 {
        if i % 3 == 1 {
            assert!(!btree.search(i));
        } else {
            assert!(btree.search(i));
        }
    }
}

#[test]
fn test_delete_insert_interleaved() {
    let mut btree = BTree::new(3);

    for i in 1..=10 {
        btree.insert(i);
    }

    assert_eq!(btree.delete(5), Ok(()));
    btree.insert(15);
    assert_eq!(btree.delete(3), Ok(()));
    btree.insert(13);

    assert!(!btree.search(5));
    assert!(!btree.search(3));
    assert!(btree.search(15));
    assert!(btree.search(13));
}

#[test]
fn test_delete_string_values() {
    let mut btree = BTree::new(3);
    let values = vec!["apple", "banana", "cherry", "date", "elderberry"];

    for val in &values {
        btree.insert(val.to_string());
    }

    assert_eq!(btree.delete("banana".to_string()), Ok(()));
    assert_eq!(btree.delete("date".to_string()), Ok(()));

    assert!(!btree.search("banana".to_string()));
    assert!(!btree.search("date".to_string()));
    assert!(btree.search("apple".to_string()));
    assert!(btree.search("cherry".to_string()));
    assert!(btree.search("elderberry".to_string()));
}

#[test]
fn test_delete_maintains_btree_properties() {
    let mut btree = BTree::new(5);

    for i in 1..=100 {
        btree.insert(i);
    }

    for i in (1..=100).step_by(2) {
        assert_eq!(btree.delete(i), Ok(()));
    }

    for i in 1..=100 {
        if i % 2 == 1 {
            assert!(!btree.search(i));
        } else {
            assert!(btree.search(i));
        }
    }
}
