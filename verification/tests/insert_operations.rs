use lib::BPlusTreeMap;

#[test]
fn test_insert_operations_module_exists() {
    assert!(true);
}

#[test]
fn new_tree_has_room_and_reports_it() {
    let mut tree = BPlusTreeMap::new(16).unwrap();
    assert!(tree.has_room_for_insert());
    assert_eq!(tree.insert(1, "first"), None);
    assert_eq!(tree.insert(1, "second"), Some("first"));
    assert_eq!(tree.get(&1), Some(&"second"));
    assert_eq!(tree.len(), 1);
    for i in 0..1000 {
        assert!(tree.has_room_for_insert());
        tree.insert(i, "x");
    }
    tree.clear();
    assert!(tree.has_room_for_insert());
    assert!(tree.is_leaf_root());
}

#[test]
fn full_root_leaf_splits_two_three() {
    let mut tree = BPlusTreeMap::new(4).unwrap();
    for k in 1..=4 {
        tree.insert(k, k * 10);
    }
    assert_eq!(tree.insert(5, 50), None);
    assert!(!tree.is_leaf_root());
    assert_eq!(tree.leaf_count(), 2);
    assert_eq!(tree.leaf_sizes(), vec![2, 3]);
    assert!(tree.check_invariants());
}
