use lib::compressed_node::CompressedLeafNode;

#[test]
fn new_compressed_leaf() {
    let leaf = CompressedLeafNode::<i32, i32>::new(8);
    assert_eq!(leaf.len(), 0);
    assert_eq!(leaf.capacity(), 8);
    assert!(leaf.is_empty());
    assert!(!leaf.is_full());
}

#[test]
fn calculate_max_capacity_for_i32_pairs() {
    let max_cap = CompressedLeafNode::<i32, i32>::calculate_max_capacity();
    assert_eq!(max_cap, 31);
}

#[test]
fn calculate_max_capacity_for_different_types() {
    let u8_cap = CompressedLeafNode::<u8, u8>::calculate_max_capacity();
    assert_eq!(u8_cap, 124);

    let u64_cap = CompressedLeafNode::<u64, u64>::calculate_max_capacity();
    assert_eq!(u64_cap, 15);
}

#[test]
fn insert_single_item() {
    let mut leaf = CompressedLeafNode::<i32, i32>::new(8);
    assert!(leaf.insert(42, 100).is_ok());
    assert_eq!(leaf.len(), 1);
    assert_eq!(leaf.get(&42), Some(&100));
}

#[test]
fn get_nonexistent_key() {
    let leaf = CompressedLeafNode::<i32, i32>::new(8);
    assert_eq!(leaf.get(&42), None);
}

#[test]
fn get_from_empty_leaf() {
    let leaf = CompressedLeafNode::<i32, i32>::new(10);
    assert_eq!(leaf.get(&1), None);
    assert_eq!(leaf.get(&0), None);
    assert_eq!(leaf.get(&-1), None);
}

#[test]
fn get_boundary_conditions() {
    let leaf = CompressedLeafNode::<i32, i32>::new(10);
    assert_eq!(leaf.get(&i32::MIN), None);
    assert_eq!(leaf.get(&i32::MAX), None);
    assert_eq!(leaf.get(&0), None);
}

#[test]
fn insert_multiple_sorted() {
    let mut leaf = CompressedLeafNode::<i32, i32>::new(8);
    for i in 0..5 {
        assert!(leaf.insert(i, i * 10).is_ok());
    }
    assert_eq!(leaf.len(), 5);
    for i in 0..5 {
        assert_eq!(leaf.get(&i), Some(&(i * 10)));
    }
}

#[test]
fn insert_duplicate_keys() {
    let mut leaf = CompressedLeafNode::<i32, i32>::new(8);
    assert!(leaf.insert(42, 100).is_ok());
    assert_eq!(leaf.len(), 1);
    assert_eq!(leaf.get(&42), Some(&100));

    assert!(leaf.insert(42, 200).is_ok());
    assert_eq!(leaf.len(), 1);
    assert_eq!(leaf.get(&42), Some(&200));
}

#[test]
fn insert_at_capacity() {
    let mut leaf = CompressedLeafNode::<i32, i32>::new(4);
    for i in 0..4 {
        assert!(leaf.insert(i, i * 10).is_ok());
    }
    assert!(leaf.is_full());
    assert!(leaf.insert(99, 990).is_err());
}

#[test]
fn compressed_leaf_insert_reports_old_value_and_keeps_order() {
    let mut leaf = CompressedLeafNode::<i32, i32>::new(10);
    for key in [5, 1, 8, 3, 7] {
        assert_eq!(leaf.insert(key, key * 10), Ok(None));
    }
    assert_eq!(leaf.insert(3, 33), Ok(Some(30)));
    assert_eq!(leaf.len(), 5);
    for key in [1, 5, 7, 8] {
        assert_eq!(leaf.get(&key), Some(&(key * 10)));
    }
    assert_eq!(leaf.get(&3), Some(&33));
    assert_eq!(leaf.insert(i32::MIN, -1), Ok(None));
    assert_eq!(leaf.insert(i32::MAX, 1), Ok(None));
    assert_eq!(leaf.get(&i32::MIN), Some(&-1));
    assert_eq!(leaf.get(&i32::MAX), Some(&1));
    // A full leaf still replaces the value of a present key.
    let mut small = CompressedLeafNode::<i32, i32>::new(1);
    assert_eq!(small.insert(1, 1), Ok(None));
    assert_eq!(small.insert(1, 2), Ok(Some(1)));
    assert_eq!(small.insert(2, 2), Err("Leaf is at capacity"));
}

#[test]
fn get_with_manual_data_setup() {
    let mut leaf = CompressedLeafNode::<i32, i32>::new(10);

    assert!(leaf.insert(10, 100).is_ok());
    assert!(leaf.insert(20, 200).is_ok());
    assert!(leaf.insert(30, 300).is_ok());
    assert_eq!(leaf.len(), 3);

    assert_eq!(leaf.get(&10), Some(&100));
    assert_eq!(leaf.get(&20), Some(&200));
    assert_eq!(leaf.get(&30), Some(&300));

    assert_eq!(leaf.get(&5), None);
    assert_eq!(leaf.get(&15), None);
    assert_eq!(leaf.get(&25), None);
    assert_eq!(leaf.get(&35), None);

    assert_eq!(leaf.get(&9), None);
    assert_eq!(leaf.get(&11), None);
    assert_eq!(leaf.get(&31), None);
}

#[test]
fn insert_multiple_unsorted() {
    let mut leaf = CompressedLeafNode::<i32, i32>::new(8);
    let keys = [5, 1, 8, 3, 7];

    for &key in &keys {
        assert!(leaf.insert(key, key * 10).is_ok());
    }
    assert_eq!(leaf.len(), 5);

    for &key in &keys {
        assert_eq!(leaf.get(&key), Some(&(key * 10)));
    }

    // Stored in key order: [1, 3, 5, 7, 8]
    assert_eq!(leaf.find_key_index(&1), (0, true));
    assert_eq!(leaf.find_key_index(&3), (1, true));
    assert_eq!(leaf.find_key_index(&5), (2, true));
    assert_eq!(leaf.find_key_index(&7), (3, true));
    assert_eq!(leaf.find_key_index(&8), (4, true));
}

#[test]
fn insert_comprehensive_edge_cases() {
    let mut leaf = CompressedLeafNode::<i32, i32>::new(10);

    assert!(leaf.insert(i32::MIN, -1000).is_ok());
    assert!(leaf.insert(i32::MAX, 1000).is_ok());
    assert!(leaf.insert(0, 0).is_ok());
    assert_eq!(leaf.len(), 3);

    assert_eq!(leaf.get(&i32::MIN), Some(&-1000));
    assert_eq!(leaf.get(&i32::MAX), Some(&1000));
    assert_eq!(leaf.get(&0), Some(&0));

    assert!(leaf.insert(-100, -100).is_ok());
    assert!(leaf.insert(100, 100).is_ok());
    assert_eq!(leaf.len(), 5);

    // Stored in key order
    assert_eq!(leaf.find_key_index(&i32::MIN), (0, true));
    assert_eq!(leaf.find_key_index(&-100), (1, true));
    assert_eq!(leaf.find_key_index(&0), (2, true));
    assert_eq!(leaf.find_key_index(&100), (3, true));
    assert_eq!(leaf.find_key_index(&i32::MAX), (4, true));

    assert!(leaf.insert(i32::MIN, -2000).is_ok());
    assert!(leaf.insert(i32::MAX, 2000).is_ok());
    assert_eq!(leaf.len(), 5);

    assert_eq!(leaf.get(&i32::MIN), Some(&-2000));
    assert_eq!(leaf.get(&i32::MAX), Some(&2000));
}

#[test]
fn test_find_key_index_helper() {
    let mut leaf = CompressedLeafNode::<i32, i32>::new(10);

    assert_eq!(leaf.find_key_index(&42), (0, false));

    assert!(leaf.insert(10, 0).is_ok());
    assert!(leaf.insert(20, 0).is_ok());
    assert!(leaf.insert(30, 0).is_ok());

    assert_eq!(leaf.find_key_index(&10), (0, true));
    assert_eq!(leaf.find_key_index(&20), (1, true));
    assert_eq!(leaf.find_key_index(&30), (2, true));

    assert_eq!(leaf.find_key_index(&5), (0, false));
    assert_eq!(leaf.find_key_index(&15), (1, false));
    assert_eq!(leaf.find_key_index(&25), (2, false));
    assert_eq!(leaf.find_key_index(&35), (3, false));

    assert_eq!(leaf.find_key_index(&9), (0, false));
    assert_eq!(leaf.find_key_index(&11), (1, false));
    assert_eq!(leaf.find_key_index(&31), (3, false));
}

#[test]
fn compressed_leaf_full_insert_message() {
    let mut leaf = CompressedLeafNode::<i32, i32>::new(2);
    assert!(leaf.insert(1, 10).is_ok());
    assert!(leaf.insert(2, 20).is_ok());
    assert_eq!(leaf.insert(3, 30), Err("Leaf is at capacity"));
    assert_eq!(leaf.insert(2, 22), Ok(Some(20)));
}

#[test]
fn compressed_leaf_remove_and_iterate() {
    let mut leaf = CompressedLeafNode::<i32, i32>::new(8);
    let mut empty = leaf.iter();
    assert_eq!(empty.next(), None);
    leaf.insert(42, 100).unwrap();
    leaf.insert(7, 70).unwrap();
    leaf.insert(13, 130).unwrap();
    assert_eq!(leaf.remove(&42), Some(100));
    assert_eq!(leaf.len(), 2);
    assert_eq!(leaf.get(&42), None);
    assert_eq!(leaf.remove(&42), None);
    let mut items = Vec::new();
    let mut it = leaf.iter();
    while let Some((k, v)) = it.next() {
        items.push((*k, *v));
    }
    assert_eq!(items, vec![(7, 70), (13, 130)]);
}
