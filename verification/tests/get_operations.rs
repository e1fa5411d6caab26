use lib::node::{BranchNode, LeafNode};
use lib::{BPlusTreeError, BPlusTreeMap, NodeRef};
use std::marker::PhantomData;

#[test]
fn test_basic_get_operations() {
    let mut tree = BPlusTreeMap::new(4).unwrap();
    assert_eq!(tree.get(&1), None);
    assert!(!tree.contains_key(&1));
    tree.insert(1, "one");
    tree.insert(2, "two");
    tree.insert(3, "three");
    assert_eq!(tree.get(&1), Some(&"one"));
    assert_eq!(tree.get(&2), Some(&"two"));
    assert_eq!(tree.get(&3), Some(&"three"));
    assert_eq!(tree.get(&4), None);
    assert!(tree.contains_key(&1));
    assert!(tree.contains_key(&2));
    assert!(tree.contains_key(&3));
    assert!(!tree.contains_key(&4));
}

#[test]
fn test_get_or_default() {
    let mut tree = BPlusTreeMap::new(4).unwrap();
    tree.insert(1, "one");
    assert_eq!(tree.get_or_default(&1, &"default"), &"one");
    assert_eq!(tree.get_or_default(&2, &"default"), &"default");
}

#[test]
fn test_get_item() {
    let mut tree = BPlusTreeMap::new(4).unwrap();
    tree.insert(1, "one");
    assert_eq!(tree.get_item(&1).unwrap(), &"one");
    assert!(tree.get_item(&2).is_err());
    assert!(matches!(tree.get_item(&2), Err(BPlusTreeError::KeyNotFound)));
}

#[test]
fn test_get_many() {
    let mut tree = BPlusTreeMap::new(4).unwrap();
    tree.insert(1, "one");
    tree.insert(2, "two");
    tree.insert(3, "three");
    let values = tree.get_many(&[1, 2, 3]).unwrap();
    assert_eq!(values, vec![&"one", &"two", &"three"]);
    assert!(tree.get_many(&[1, 2, 4]).is_err());
    let empty_values = tree.get_many(&[]).unwrap();
    assert!(empty_values.is_empty());
}

#[test]
fn test_try_get() {
    let mut tree = BPlusTreeMap::new(4).unwrap();
    tree.insert(1, "one");
    assert!(tree.try_get(&1).is_ok());
    assert_eq!(tree.try_get(&1).unwrap(), &"one");
    assert!(tree.try_get(&2).is_err());
}

#[test]
fn test_leaf_node_get_operations() {
    let mut leaf = LeafNode::new(4);
    assert_eq!(leaf.get(&1), None);
    assert_eq!(leaf.get_mut(&1), None);
    leaf.keys.push(1);
    leaf.values.push("one");
    leaf.keys.push(3);
    leaf.values.push("three");
    assert_eq!(leaf.get(&1), Some(&"one"));
    assert_eq!(leaf.get(&3), Some(&"three"));
    assert_eq!(leaf.get(&2), None);
    if let Some(value) = leaf.get_mut(&1) {
        *value = "ONE";
    }
    assert_eq!(leaf.get(&1), Some(&"ONE"));
}

#[test]
fn get_operations_test_branch_node_operations() {
    let mut branch = BranchNode::<i32, String>::new(4);
    branch.keys.push(5);
    branch.keys.push(10);
    branch.children.push(NodeRef::Leaf(0, PhantomData));
    branch.children.push(NodeRef::Leaf(1, PhantomData));
    branch.children.push(NodeRef::Leaf(2, PhantomData));
    assert_eq!(branch.find_child_index(&3), 0);
    assert_eq!(branch.find_child_index(&5), 1);
    assert_eq!(branch.find_child_index(&7), 1);
    assert_eq!(branch.find_child_index(&10), 2);
    assert_eq!(branch.find_child_index(&15), 2);
    assert!(branch.get_child(&3).is_some());
    assert!(branch.get_child(&7).is_some());
    assert!(branch.get_child(&15).is_some());
}

#[test]
fn insert_returns_previous_value_and_replaces_it() {
    let mut tree = BPlusTreeMap::new(4).unwrap();
    assert_eq!(tree.insert(5, 50), None);
    assert_eq!(tree.insert(5, 51), Some(50));
    assert_eq!(tree.get(&5), Some(&51));
    assert_eq!(tree.len(), 1);
}

#[test]
fn lookups_after_many_splits() {
    let mut tree = BPlusTreeMap::new(4).unwrap();
    for i in 0..500 {
        tree.insert((i * 37) % 500, i);
    }
    assert_eq!(tree.len(), 500);
    for i in 0..500 {
        assert_eq!(tree.get(&((i * 37) % 500)), Some(&i));
    }
    assert!(tree.check_invariants());
    assert!(tree.validate().is_ok());
    assert!(tree.validate_for_operation("lookup").is_ok());
}
