use lib::optimized_noderef::OptimizedNodeRef;
use lib::NULL_NODE;
use std::mem;

#[test]
fn optimized_noderef_test_size_optimization() {
    assert_eq!(mem::size_of::<OptimizedNodeRef>(), 8);
}

#[test]
fn test_leaf_node_ref() {
    let leaf_ref = OptimizedNodeRef::new_leaf(42);
    assert!(leaf_ref.is_leaf());
    assert!(!leaf_ref.is_branch());
    assert_eq!(leaf_ref.id(), 42);
    assert!(!leaf_ref.is_null());
}

#[test]
fn test_branch_node_ref() {
    let branch_ref = OptimizedNodeRef::new_branch(123);
    assert!(!branch_ref.is_leaf());
    assert!(branch_ref.is_branch());
    assert_eq!(branch_ref.id(), 123);
    assert!(!branch_ref.is_null());
}

#[test]
fn test_null_reference() {
    let null_ref = OptimizedNodeRef::null();
    assert!(null_ref.is_null());
    assert!(null_ref.is_branch());
    assert_eq!(null_ref.id(), NULL_NODE);
}

#[test]
fn test_max_node_id() {
    let max_id = NULL_NODE - 1;
    let leaf_ref = OptimizedNodeRef::new_leaf(max_id);
    assert!(leaf_ref.is_leaf());
    assert_eq!(leaf_ref.id(), max_id);
    let branch_ref = OptimizedNodeRef::new_branch(max_id);
    assert!(branch_ref.is_branch());
    assert_eq!(branch_ref.id(), max_id);
}

#[test]
fn test_zero_node_id() {
    let leaf_ref = OptimizedNodeRef::new_leaf(0);
    assert!(leaf_ref.is_leaf());
    assert_eq!(leaf_ref.id(), 0);
    let branch_ref = OptimizedNodeRef::new_branch(0);
    assert!(branch_ref.is_branch());
    assert_eq!(branch_ref.id(), 0);
}

#[test]
fn test_equality() {
    let leaf1 = OptimizedNodeRef::new_leaf(42);
    let leaf2 = OptimizedNodeRef::new_leaf(42);
    let leaf3 = OptimizedNodeRef::new_leaf(43);
    let branch1 = OptimizedNodeRef::new_branch(42);
    assert_eq!(leaf1, leaf2);
    assert_ne!(leaf1, leaf3);
    assert_ne!(leaf1, branch1);
}

#[test]
fn test_debug_format() {
    let leaf_ref = OptimizedNodeRef::new_leaf(42);
    let debug_str = format!("{:?}", leaf_ref);
    assert!(debug_str.contains("OptimizedNodeRef"));
}

#[test]
fn test_clone_copy() {
    let original = OptimizedNodeRef::new_leaf(42);
    let cloned = original.clone();
    let copied = original;
    assert_eq!(original, cloned);
    assert_eq!(original, copied);
}

#[test]
fn default_is_the_null_branch() {
    let d = OptimizedNodeRef::default();
    assert!(d.is_null());
    assert!(d.is_branch());
    assert_eq!(d, OptimizedNodeRef::null());
}
