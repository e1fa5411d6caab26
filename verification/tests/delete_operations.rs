use lib::BPlusTreeMap;

#[test]
fn test_delete_operations_module_exists() {
    let mut tree = BPlusTreeMap::new(4).unwrap();
    assert_eq!(tree.len(), 0);
    tree.insert(1, "one".to_string());
    assert_eq!(tree.remove(&1), Some("one".to_string()));
    assert_eq!(tree.len(), 0);
}

#[test]
fn test_optimized_rebalancing_reduces_arena_access() {
    let mut tree = BPlusTreeMap::new(4).unwrap();
    for i in 0..20 {
        tree.insert(i, format!("value_{}", i));
    }
    assert!(tree.len() == 20);
    for i in (0..10).step_by(2) {
        let removed = tree.remove(&i);
        assert!(removed.is_some(), "Should have removed key {}", i);
    }
    assert!(tree.len() == 15);
    for i in (1..20).step_by(2) {
        if i < 10 {
            assert!(tree.get(&i).is_some(), "Key {} should still exist", i);
        }
    }
    for i in 10..20 {
        assert!(tree.get(&i).is_some(), "Key {} should still exist", i);
    }
}

#[test]
fn test_rebalancing_with_various_sibling_scenarios() {
    let mut tree = BPlusTreeMap::new(4).unwrap();
    for i in 0..15 {
        tree.insert(i, i * 2);
    }
    let initial_len = tree.len();
    let delete_keys = vec![1, 3, 5, 7, 9, 11, 13];
    for key in delete_keys {
        let removed = tree.remove(&key);
        assert!(removed.is_some(), "Should have removed key {}", key);
    }
    assert_eq!(tree.len(), initial_len - 7);
    let remaining_keys = vec![0, 2, 4, 6, 8, 10, 12, 14];
    for key in remaining_keys {
        assert_eq!(tree.get(&key), Some(&(key * 2)), "Key {} should have correct value", key);
    }
}

#[test]
fn test_delete_performance_characteristics() {
    let mut tree = BPlusTreeMap::new(16).unwrap();
    let n = 1000;
    for i in 0..n {
        tree.insert(i, format!("value_{}", i));
    }
    let mut deleted_count = 0;
    for i in (0..n).step_by(3) {
        if tree.remove(&i).is_some() {
            deleted_count += 1;
        }
    }
    assert_eq!(tree.len(), n - deleted_count);
    for i in 0..n {
        let should_exist = i % 3 != 0;
        assert_eq!(tree.get(&i).is_some(), should_exist, "Key {} existence should be {}", i, should_exist);
    }
}

#[test]
fn remove_of_missing_key_changes_nothing() {
    let mut tree = BPlusTreeMap::new(4).unwrap();
    for i in 0..30 {
        tree.insert(i, i);
    }
    assert_eq!(tree.remove(&100), None);
    assert_eq!(tree.len(), 30);
    assert!(tree.check_invariants());
    assert!(tree.remove_item(&100).is_err());
    assert_eq!(tree.remove_item(&7), Ok(7));
    assert_eq!(tree.get(&7), None);
}

#[test]
fn removing_everything_leaves_a_valid_empty_tree() {
    let mut tree = BPlusTreeMap::new(4).unwrap();
    for i in 0..200 {
        tree.insert(i, i * 3);
    }
    for i in 0..200 {
        assert_eq!(tree.remove(&i), Some(i * 3));
        assert_eq!(tree.get(&i), None);
    }
    assert!(tree.is_empty());
    assert_eq!(tree.len(), 0);
    assert!(tree.check_invariants());
    assert!(tree.validate().is_ok());
}

#[test]
fn insert_then_remove_restores_lookup_results() {
    let mut tree = BPlusTreeMap::new(5).unwrap();
    for i in (0..100).rev() {
        tree.insert(i * 2, i);
    }
    assert_eq!(tree.insert(51, 7), None);
    assert_eq!(tree.get(&51), Some(&7));
    assert_eq!(tree.remove(&51), Some(7));
    for i in 0..100 {
        assert_eq!(tree.get(&(i * 2)), Some(&i));
        assert_eq!(tree.get(&(i * 2 + 1)), None);
    }
    assert!(tree.validate().is_ok());
}

#[test]
fn invariants_hold_through_inserts_and_removes() {
    let mut tree = lib::BPlusTreeMap::new(4).unwrap();
    for i in 0..300 {
        tree.insert((i * 37) % 300, i);
        assert!(tree.check_invariants());
    }
    for i in 0..300 {
        tree.remove(&((i * 53) % 300));
        assert!(tree.check_invariants());
    }
    assert_eq!(tree.len(), 0);
}
