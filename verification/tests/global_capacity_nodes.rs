use lib::global_capacity_nodes::{GlobalCapacityBranchNode, GlobalCapacityLeafNode};
use lib::node::{BranchNode, LeafNode};
use lib::NodeRef;
use std::mem;

#[test]
fn test_leaf_node_memory_savings() {
    let old_size = mem::size_of::<LeafNode<i32, i32>>();
    let new_size = mem::size_of::<GlobalCapacityLeafNode<i32, i32>>();
    println!("Old LeafNode size: {} bytes", old_size);
    println!("New LeafNode size: {} bytes", new_size);
    assert!(new_size < old_size);
    assert_eq!(old_size - new_size, 8);
}

#[test]
fn test_branch_node_memory_savings() {
    let old_size = mem::size_of::<BranchNode<i32, i32>>();
    let new_size = mem::size_of::<GlobalCapacityBranchNode<i32, i32>>();
    println!("Old BranchNode size: {} bytes", old_size);
    println!("New BranchNode size: {} bytes", new_size);
    assert!(new_size < old_size);
    assert_eq!(old_size - new_size, 8);
}

#[test]
fn test_leaf_node_operations() {
    let capacity = 4;
    let mut node = GlobalCapacityLeafNode::new(capacity);
    assert!(node.can_insert(capacity));
    assert!(!node.is_full(capacity));
    node.insert_at(0, 10, 100, capacity).unwrap();
    node.insert_at(1, 20, 200, capacity).unwrap();
    assert_eq!(node.len(), 2);
    assert_eq!(node.get_pair(0), Some((&10, &100)));
    assert_eq!(node.get_pair(1), Some((&20, &200)));
    node.insert_at(2, 30, 300, capacity).unwrap();
    node.insert_at(3, 40, 400, capacity).unwrap();
    assert!(node.is_full(capacity));
    assert!(!node.can_insert(capacity));
    assert!(node.insert_at(4, 50, 500, capacity).is_err());
}

#[test]
fn global_capacity_nodes_test_branch_node_operations() {
    let capacity = 4;
    let mut node = GlobalCapacityBranchNode::<i32, i32>::new(capacity);
    node.children_mut().push(NodeRef::Leaf(1, std::marker::PhantomData));
    assert!(node.can_insert(capacity));
    assert!(!node.is_full(capacity));
    node.insert_at(0, 10, NodeRef::Leaf(2, std::marker::PhantomData), capacity).unwrap();
    node.insert_at(1, 20, NodeRef::Leaf(3, std::marker::PhantomData), capacity).unwrap();
    assert_eq!(node.len(), 2);
    assert_eq!(node.children().len(), 3);
    node.insert_at(2, 30, NodeRef::Leaf(4, std::marker::PhantomData), capacity).unwrap();
    node.insert_at(3, 40, NodeRef::Leaf(5, std::marker::PhantomData), capacity).unwrap();
    assert!(node.is_full(capacity));
    assert!(!node.can_insert(capacity));
}

#[test]
fn test_leaf_node_split() {
    let capacity = 4;
    let mut node = GlobalCapacityLeafNode::new(capacity);
    for i in 0..4 {
        node.insert_at(i, (i * 10) as i32, (i * 100) as i32, capacity).unwrap();
    }
    let right = node.split_at(2, capacity);
    assert_eq!(node.len(), 2);
    assert_eq!(right.len(), 2);
    assert_eq!(node.get_pair(0), Some((&0, &0)));
    assert_eq!(node.get_pair(1), Some((&10, &100)));
    assert_eq!(right.get_pair(0), Some((&20, &200)));
    assert_eq!(right.get_pair(1), Some((&30, &300)));
}

#[test]
fn leaf_borrow_and_merge() {
    let cap = 8;
    let mut left = GlobalCapacityLeafNode::with_data(vec![1, 2, 3], vec![10, 20, 30], 7);
    let mut right = GlobalCapacityLeafNode::with_data(vec![5, 6], vec![50, 60], 9);
    let mut sep = 5;
    right.borrow_from_left(&mut left, &mut sep);
    assert_eq!(sep, 3);
    assert_eq!(right.keys(), &vec![3, 5, 6]);
    assert_eq!(left.keys(), &vec![1, 2]);
    left.borrow_from_right(&mut right, &mut sep);
    assert_eq!(sep, 5);
    assert_eq!(left.keys(), &vec![1, 2, 3]);
    left.merge_with(right, cap).unwrap();
    assert_eq!(left.keys(), &vec![1, 2, 3, 5, 6]);
    assert_eq!(left.values(), &vec![10, 20, 30, 50, 60]);
    assert_eq!(left.next(), 9);
    assert_eq!(left.remove_at(0), (1, 10));
    assert_eq!(left.find_insert_position(&4), 2);
    let big = GlobalCapacityLeafNode::with_data(vec![7, 8, 9, 10, 11], vec![0, 0, 0, 0, 0], 0);
    assert!(left.merge_with(big, cap).is_err());
}

#[test]
fn branch_split_and_rotations() {
    let cap = 4;
    let refs: Vec<NodeRef<i32, i32>> = (0..5).map(|i| NodeRef::Leaf(i, std::marker::PhantomData)).collect();
    let mut b = GlobalCapacityBranchNode::with_data(vec![10, 20, 30, 40], refs);
    assert_eq!(b.find_child_index(&20), 2);
    assert_eq!(b.find_child_index(&5), 0);
    let (sep, right) = b.split_at(2, cap);
    assert_eq!(sep, 30);
    assert_eq!(b.keys(), &vec![10, 20]);
    assert_eq!(b.children().len(), 3);
    assert_eq!(right.keys(), &vec![40]);
    assert_eq!(right.children().len(), 2);
    let (k, c) = b.remove_at(1);
    assert_eq!(k, 20);
    assert_eq!(c, NodeRef::Leaf(2, std::marker::PhantomData));
    assert!(b.get_child(5).is_none());
}
