use lib::node::{BranchNode, LeafNode};
use lib::validation;
use lib::{BPlusTreeMap, DEFAULT_CAPACITY, MIN_CAPACITY};

#[test]
fn test_btree_construction() {
    let tree = BPlusTreeMap::<i32, String>::new(16).unwrap();
    assert_eq!(tree.capacity, 16);
}

#[test]
fn test_btree_invalid_capacity() {
    let result = BPlusTreeMap::<i32, String>::new(2);
    assert!(result.is_err());
}

#[test]
fn test_btree_default() {
    let tree = BPlusTreeMap::<i32, String>::default();
    assert_eq!(tree.capacity, DEFAULT_CAPACITY);
}

#[test]
fn test_btree_empty() {
    let tree = BPlusTreeMap::<i32, String>::empty(16).unwrap();
    assert_eq!(tree.capacity, 16);
}

#[test]
fn test_leaf_construction() {
    let leaf = LeafNode::<i32, String>::new(16);
    assert_eq!(leaf.capacity, 16);
    assert!(leaf.keys_is_empty());
}

#[test]
fn test_leaf_with_reserved_capacity() {
    let leaf = LeafNode::<i32, String>::with_reserved_capacity(16);
    assert_eq!(leaf.capacity, 16);
}

#[test]
fn test_branch_construction() {
    let branch = BranchNode::<i32, String>::new(16);
    assert_eq!(branch.capacity, 16);
    assert!(branch.keys.is_empty());
}

#[test]
fn test_validation() {
    assert!(validation::validate_capacity(16).is_ok());
    assert!(validation::validate_capacity(4).is_ok());
    assert!(validation::validate_capacity(2).is_err());
}

#[test]
fn test_recommended_capacity() {
    assert_eq!(validation::recommended_capacity(50), MIN_CAPACITY);
    assert_eq!(validation::recommended_capacity(5000), 16);
    assert_eq!(validation::recommended_capacity(500_000), 32);
    assert_eq!(validation::recommended_capacity(5_000_000), 64);
}

#[test]
fn invalid_capacity_error_reports_both_numbers() {
    let e = validation::validate_capacity(3).unwrap_err();
    assert!(e.is_capacity_error());
    assert_eq!(
        e.to_string(),
        "Invalid capacity: Capacity 3 is invalid (minimum required: 4)".to_string()
    );
}

#[test]
fn recommended_capacity_boundaries() {
    assert_eq!(validation::recommended_capacity(99), 4);
    assert_eq!(validation::recommended_capacity(100), 16);
    assert_eq!(validation::recommended_capacity(9_999), 16);
    assert_eq!(validation::recommended_capacity(10_000), 32);
    assert_eq!(validation::recommended_capacity(999_999), 32);
    assert_eq!(validation::recommended_capacity(1_000_000), 64);
}
