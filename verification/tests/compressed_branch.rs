use lib::compressed_branch::{ChildType, CompressedBranchNode};
use lib::{InsertResult, NodeRef};
use std::marker::PhantomData;

#[test]
fn test_new_compressed_branch() {
    let leaf_parent = CompressedBranchNode::<i32, i32>::new_leaf_parent(10);
    assert_eq!(leaf_parent.capacity(), 10);
    assert_eq!(leaf_parent.len(), 0);
    assert!(leaf_parent.is_empty());
    assert!(!leaf_parent.is_full());
    assert_eq!(leaf_parent.child_type(), ChildType::Leaves);
    assert!(leaf_parent.children_are_leaves());
    assert!(!leaf_parent.children_are_branches());

    let branch_parent = CompressedBranchNode::<i32, i32>::new_branch_parent(10);
    assert_eq!(branch_parent.child_type(), ChildType::Branches);
    assert!(!branch_parent.children_are_leaves());
    assert!(branch_parent.children_are_branches());
}

#[test]
fn test_calculate_max_capacity_for_i32() {
    let max_cap = CompressedBranchNode::<i32, i32>::calculate_max_capacity();
    assert_eq!(max_cap, 26);
}

#[test]
fn test_calculate_max_capacity_for_different_types() {
    let u8_cap = CompressedBranchNode::<u8, u8>::calculate_max_capacity();
    assert_eq!(u8_cap, 42);

    let u64_cap = CompressedBranchNode::<u64, u64>::calculate_max_capacity();
    assert_eq!(u64_cap, 17);
}

#[test]
fn test_default_trait() {
    let branch = CompressedBranchNode::<i32, i32>::default();
    assert_eq!(branch.capacity(), 16);
    assert_eq!(branch.len(), 0);
    assert!(branch.is_empty());
    assert_eq!(branch.child_type(), ChildType::Leaves);
}

#[test]
fn test_insert_single_key() {
    let mut branch = CompressedBranchNode::<i32, i32>::new_leaf_parent(10);
    let child = NodeRef::Leaf(1, PhantomData);

    branch.set_child(0, NodeRef::Leaf(0, PhantomData));

    let result = branch.insert(10, child);

    match result {
        InsertResult::Updated(None) => {
            assert_eq!(branch.len(), 1);
            assert_eq!(branch.keys_get(0), Some(&10));
            assert_eq!(branch.get_child(1), Some(child));
        },
        _ => panic!("Expected Updated(None)"),
    }
}

#[test]
fn test_insert_multiple_keys() {
    let mut branch = CompressedBranchNode::<i32, i32>::new_leaf_parent(10);

    branch.set_child(0, NodeRef::Leaf(0, PhantomData));

    branch.insert(20, NodeRef::Leaf(1, PhantomData));
    branch.insert(10, NodeRef::Leaf(2, PhantomData));
    branch.insert(30, NodeRef::Leaf(3, PhantomData));

    assert_eq!(branch.len(), 3);
    assert_eq!(branch.keys(), vec![10, 20, 30]);

    assert_eq!(branch.get_child(0), Some(NodeRef::Leaf(0, PhantomData)));
    assert_eq!(branch.get_child(1), Some(NodeRef::Leaf(2, PhantomData)));
    assert_eq!(branch.get_child(2), Some(NodeRef::Leaf(1, PhantomData)));
    assert_eq!(branch.get_child(3), Some(NodeRef::Leaf(3, PhantomData)));
}

#[test]
fn test_borrowing_operations() {
    let mut donor = CompressedBranchNode::<i32, i32>::new_leaf_parent(10);
    let mut receiver = CompressedBranchNode::<i32, i32>::new_leaf_parent(10);

    donor.set_child(0, NodeRef::Leaf(0, PhantomData));
    donor.insert(10, NodeRef::Leaf(1, PhantomData));
    donor.insert(20, NodeRef::Leaf(2, PhantomData));
    donor.insert(30, NodeRef::Leaf(3, PhantomData));
    donor.insert(40, NodeRef::Leaf(4, PhantomData));
    donor.insert(50, NodeRef::Leaf(5, PhantomData));
    donor.insert(60, NodeRef::Leaf(6, PhantomData));

    assert_eq!(donor.len(), 6);
    assert!(donor.can_donate());

    if let Some((key, child)) = donor.borrow_last() {
        assert_eq!(key, 60);
        assert_eq!(child, NodeRef::Leaf(6, PhantomData));
        assert_eq!(donor.len(), 5);

        receiver.accept_from_right(key, child);
        assert_eq!(receiver.len(), 1);
        assert_eq!(receiver.keys_get(0), Some(&60));
    }

    if let Some((key, child)) = donor.borrow_first() {
        assert_eq!(key, 10);
        assert_eq!(child, NodeRef::Leaf(0, PhantomData));
        assert_eq!(donor.len(), 4);

        receiver.accept_from_left(key, child);
        assert_eq!(receiver.len(), 2);
        assert_eq!(receiver.keys(), vec![10, 60]);
    }
}

#[test]
fn test_merge_functionality() {
    let mut left = CompressedBranchNode::<i32, i32>::new_leaf_parent(10);
    let mut right = CompressedBranchNode::<i32, i32>::new_leaf_parent(10);

    left.set_child(0, NodeRef::Leaf(0, PhantomData));
    left.insert(10, NodeRef::Leaf(1, PhantomData));
    left.insert(20, NodeRef::Leaf(2, PhantomData));

    right.set_child(0, NodeRef::Leaf(3, PhantomData));
    right.insert(40, NodeRef::Leaf(4, PhantomData));
    right.insert(50, NodeRef::Leaf(5, PhantomData));

    assert_eq!(left.len(), 2);
    assert_eq!(right.len(), 2);

    left.merge_from(30, &mut right);

    assert_eq!(left.len(), 5);
    assert_eq!(right.len(), 0);
    assert_eq!(left.keys(), vec![10, 20, 30, 40, 50]);

    let children = left.children();
    assert_eq!(children.len(), 6);
}

#[test]
fn test_underfull_detection() {
    let mut branch = CompressedBranchNode::<i32, i32>::new_leaf_parent(10);

    assert!(branch.is_underfull());
    assert!(!branch.can_donate());

    let min_keys = branch.min_keys();
    branch.set_child(0, NodeRef::Leaf(0, PhantomData));
    for i in 0..min_keys {
        branch.insert(((i + 1) * 10) as i32, NodeRef::Leaf((i + 1) as u32, PhantomData));
    }

    assert!(!branch.is_underfull());
    assert!(!branch.can_donate());

    branch.insert(((min_keys + 1) * 10) as i32, NodeRef::Leaf((min_keys + 1) as u32, PhantomData));
    assert!(branch.can_donate());
}

#[test]
fn test_extract_all() {
    let mut branch = CompressedBranchNode::<i32, i32>::new_leaf_parent(10);

    branch.set_child(0, NodeRef::Leaf(0, PhantomData));
    branch.insert(10, NodeRef::Leaf(1, PhantomData));
    branch.insert(20, NodeRef::Leaf(2, PhantomData));

    assert_eq!(branch.len(), 2);

    let (keys, children) = branch.extract_all();

    assert_eq!(keys, vec![10, 20]);
    assert_eq!(children.len(), 3);
    assert_eq!(children[0], NodeRef::Leaf(0, PhantomData));
    assert_eq!(children[1], NodeRef::Leaf(1, PhantomData));
    assert_eq!(children[2], NodeRef::Leaf(2, PhantomData));

    assert_eq!(branch.len(), 0);
    assert!(branch.is_empty());
}

#[test]
fn test_find_child_for_key() {
    let mut branch = CompressedBranchNode::<i32, i32>::new_leaf_parent(10);

    branch.set_child(0, NodeRef::Leaf(0, PhantomData));
    branch.insert(20, NodeRef::Leaf(1, PhantomData));
    branch.insert(40, NodeRef::Leaf(2, PhantomData));

    assert_eq!(branch.find_child_for_key(&10), Some(NodeRef::Leaf(0, PhantomData)));
    assert_eq!(branch.find_child_for_key(&20), Some(NodeRef::Leaf(0, PhantomData)));
    assert_eq!(branch.find_child_for_key(&30), Some(NodeRef::Leaf(1, PhantomData)));
    assert_eq!(branch.find_child_for_key(&40), Some(NodeRef::Leaf(1, PhantomData)));
    assert_eq!(branch.find_child_for_key(&50), Some(NodeRef::Leaf(2, PhantomData)));
}

#[test]
fn compressed_branch_split_on_full_insert() {
    let mut branch = CompressedBranchNode::<i32, i32>::new_leaf_parent(4);
    branch.set_child(0, NodeRef::Leaf(0, PhantomData));
    for i in 1..=4 {
        branch.insert(i * 10, NodeRef::Leaf(i as u32, PhantomData));
    }
    match branch.insert(50, NodeRef::Leaf(5, PhantomData)) {
        InsertResult::Split { old_value, new_node_data, separator_key } => {
            assert!(old_value.is_none());
            // Keys [10..50] split around 30, which moves up: the left keeps
            // [10, 20] and the right [40, 50].
            assert_eq!(branch.keys(), vec![10, 20]);
            assert_eq!(branch.children(), vec![
                NodeRef::Leaf(0, PhantomData),
                NodeRef::Leaf(1, PhantomData),
                NodeRef::Leaf(2, PhantomData),
            ]);
            assert_eq!(separator_key, 30);
            match new_node_data {
                lib::SplitNodeData::CompressedBranch(right) => {
                    assert_eq!(right.keys(), vec![40, 50]);
                    assert_eq!(right.children(), vec![
                        NodeRef::Leaf(3, PhantomData),
                        NodeRef::Leaf(4, PhantomData),
                        NodeRef::Leaf(5, PhantomData),
                    ]);
                },
                _ => panic!("Expected a compressed branch"),
            }
        },
        _ => panic!("Expected a split"),
    }
    assert_eq!(branch.len(), 2);
}

#[test]
fn compressed_branch_iterators_and_slots() {
    let mut branch = CompressedBranchNode::<i32, i32>::new_leaf_parent(10);
    assert_eq!(branch.get_child(0), None);
    assert_eq!(branch.first_child(), None);
    assert_eq!(branch.last_child(), None);
    let mut empty_children = branch.children_iter();
    assert_eq!(empty_children.size_hint(), (0, Some(0)));
    assert_eq!(empty_children.next(), None);

    branch.set_child(0, NodeRef::Leaf(7, PhantomData));
    branch.insert(10, NodeRef::Leaf(8, PhantomData));
    branch.insert(20, NodeRef::Leaf(9, PhantomData));
    assert_eq!(branch.find_key_index(&10), (0, true));
    assert_eq!(branch.find_key_index(&15), (1, false));
    assert_eq!(branch.find_key_index(&25), (2, false));
    assert_eq!(branch.find_child_index(&25), 2);
    assert_eq!(branch.first_key(), Some(&10));
    assert_eq!(branch.last_key(), Some(&20));
    assert_eq!(branch.keys_get(2), None);

    let mut keys = branch.keys_iter();
    assert_eq!(keys.size_hint(), (2, Some(2)));
    assert_eq!(keys.next(), Some(&10));
    assert_eq!(keys.next(), Some(&20));
    assert_eq!(keys.next(), None);

    let mut children = branch.children_iter();
    assert_eq!(children.size_hint(), (3, Some(3)));
    assert_eq!(children.next(), Some(NodeRef::Leaf(7, PhantomData)));
    assert_eq!(children.next(), Some(NodeRef::Leaf(8, PhantomData)));
    assert_eq!(children.next(), Some(NodeRef::Leaf(9, PhantomData)));
    assert_eq!(children.next(), None);

    // The child after a key taken from the right is what its slot held.
    let right_child = branch.get_child(2);
    let (key, child) = (30, NodeRef::Leaf(11, PhantomData));
    branch.accept_from_right(key, child);
    assert_eq!(branch.keys(), vec![10, 20, 30]);
    assert_eq!(branch.get_child(2), right_child);
    assert_eq!(branch.get_child(3), Some(NodeRef::Leaf(0, PhantomData)));
    assert!(!branch.needs_split());
    let cloned = branch.clone();
    assert_eq!(cloned.keys(), branch.keys());
    assert_eq!(cloned.children(), branch.children());
}

#[test]
fn test_partial_eq_trait() {
    let mut branch1 = CompressedBranchNode::<i32, i32>::new_leaf_parent(10);
    let mut branch2 = CompressedBranchNode::<i32, i32>::new_leaf_parent(10);

    assert_eq!(branch1, branch2);

    branch1.set_child(0, NodeRef::Leaf(0, PhantomData));
    branch1.insert(10, NodeRef::Leaf(1, PhantomData));
    branch1.insert(20, NodeRef::Leaf(2, PhantomData));

    branch2.set_child(0, NodeRef::Leaf(0, PhantomData));
    branch2.insert(10, NodeRef::Leaf(1, PhantomData));
    branch2.insert(20, NodeRef::Leaf(2, PhantomData));

    assert_eq!(branch1, branch2);

    branch2.insert(30, NodeRef::Leaf(3, PhantomData));
    assert_ne!(branch1, branch2);

    let branch3 = CompressedBranchNode::<i32, i32>::new_leaf_parent(20);
    assert_ne!(branch1, branch3);

    let branch4 = CompressedBranchNode::<i32, i32>::new_branch_parent(10);
    assert_ne!(branch1, branch4);
}

#[test]
fn test_key_access_methods() {
    let mut branch = CompressedBranchNode::<i32, i32>::new_leaf_parent(10);

    assert_eq!(branch.keys_get(0), None);
    assert_eq!(branch.first_key(), None);
    assert_eq!(branch.last_key(), None);
    assert_eq!(branch.keys(), Vec::<i32>::new());

    branch.set_child(0, NodeRef::Leaf(0, PhantomData));
    branch.insert(10, NodeRef::Leaf(1, PhantomData));
    branch.insert(20, NodeRef::Leaf(2, PhantomData));
    branch.insert(30, NodeRef::Leaf(3, PhantomData));

    assert_eq!(branch.keys_get(0), Some(&10));
    assert_eq!(branch.keys_get(1), Some(&20));
    assert_eq!(branch.keys_get(2), Some(&30));
    assert_eq!(branch.keys_get(3), None);

    assert_eq!(branch.first_key(), Some(&10));
    assert_eq!(branch.last_key(), Some(&30));
    assert_eq!(branch.keys(), vec![10, 20, 30]);
}

#[test]
fn test_child_access_methods() {
    let mut branch = CompressedBranchNode::<i32, i32>::new_leaf_parent(10);

    assert_eq!(branch.get_child(0), None);
    assert_eq!(branch.first_child(), None);
    assert_eq!(branch.last_child(), None);
    assert_eq!(branch.get_child(1), None);

    let child1 = NodeRef::Leaf(1, PhantomData);
    let child2 = NodeRef::Leaf(2, PhantomData);
    let child3 = NodeRef::Leaf(3, PhantomData);

    branch.set_child(0, child1);
    branch.insert(10, child2);
    branch.insert(20, child3);

    assert_eq!(branch.get_child(0), Some(child1));
    assert_eq!(branch.get_child(1), Some(child2));
    assert_eq!(branch.get_child(2), Some(child3));
    assert_eq!(branch.get_child(3), None);

    assert_eq!(branch.first_child(), Some(child1));
    assert_eq!(branch.last_child(), Some(child3));

    let children = branch.children();
    assert_eq!(children.len(), 3);
    assert_eq!(children[0], child1);
    assert_eq!(children[1], child2);
    assert_eq!(children[2], child3);
}

#[test]
fn test_find_key_index() {
    let mut branch = CompressedBranchNode::<i32, i32>::new_leaf_parent(10);
    branch.set_child(0, NodeRef::Leaf(0, PhantomData));
    branch.insert(10, NodeRef::Leaf(1, PhantomData));
    branch.insert(30, NodeRef::Leaf(2, PhantomData));
    branch.insert(50, NodeRef::Leaf(3, PhantomData));

    assert_eq!(branch.find_key_index(&10), (0, true));
    assert_eq!(branch.find_key_index(&30), (1, true));
    assert_eq!(branch.find_key_index(&50), (2, true));

    assert_eq!(branch.find_key_index(&5), (0, false));
    assert_eq!(branch.find_key_index(&20), (1, false));
    assert_eq!(branch.find_key_index(&40), (2, false));
    assert_eq!(branch.find_key_index(&60), (3, false));
}

#[test]
fn test_find_child_index() {
    let mut branch = CompressedBranchNode::<i32, i32>::new_leaf_parent(10);
    branch.set_child(0, NodeRef::Leaf(0, PhantomData));
    branch.insert(20, NodeRef::Leaf(1, PhantomData));
    branch.insert(40, NodeRef::Leaf(2, PhantomData));
    branch.insert(60, NodeRef::Leaf(3, PhantomData));

    assert_eq!(branch.find_child_index(&10), 0);
    assert_eq!(branch.find_child_index(&20), 0);
    assert_eq!(branch.find_child_index(&30), 1);
    assert_eq!(branch.find_child_index(&40), 1);
    assert_eq!(branch.find_child_index(&50), 2);
    assert_eq!(branch.find_child_index(&60), 2);
    assert_eq!(branch.find_child_index(&70), 3);
}

#[test]
fn test_split_functionality() {
    let mut branch = CompressedBranchNode::<i32, i32>::new_leaf_parent(4);

    branch.set_child(0, NodeRef::Leaf(0, PhantomData));
    for i in 1..=5 {
        branch.insert(i * 10, NodeRef::Leaf(i as u32, PhantomData));
    }

    assert_eq!(branch.len(), 2);

    let mut full_branch = CompressedBranchNode::<i32, i32>::new_leaf_parent(4);
    full_branch.set_child(0, NodeRef::Leaf(0, PhantomData));
    for i in 0..4usize {
        full_branch.insert(((i + 1) * 10) as i32, NodeRef::Leaf((i + 1) as u32, PhantomData));
    }
    assert_eq!(full_branch.len(), 4);

    let right = full_branch.split();

    assert_eq!(full_branch.len(), 1);
    assert_eq!(right.len(), 2);

    assert_eq!(full_branch.keys(), vec![10]);
    assert_eq!(right.keys(), vec![30, 40]);
}

#[test]
fn test_keys_iterator() {
    let mut branch = CompressedBranchNode::<i32, i32>::new_leaf_parent(10);

    let mut iter = branch.keys_iter();
    assert_eq!(iter.next(), None);
    assert_eq!(iter.size_hint(), (0, Some(0)));

    branch.set_child(0, NodeRef::Leaf(0, PhantomData));
    branch.insert(10, NodeRef::Leaf(1, PhantomData));
    branch.insert(20, NodeRef::Leaf(2, PhantomData));
    branch.insert(30, NodeRef::Leaf(3, PhantomData));

    let mut keys: Vec<&i32> = Vec::new();
    let mut iter = branch.keys_iter();
    while let Some(k) = iter.next() {
        keys.push(k);
    }
    assert_eq!(keys, vec![&10, &20, &30]);

    let iter = branch.keys_iter();
    assert_eq!(iter.size_hint(), (3, Some(3)));
}

#[test]
fn test_children_iterator() {
    let mut branch = CompressedBranchNode::<i32, i32>::new_leaf_parent(10);

    let mut children: Vec<NodeRef<i32, i32>> = Vec::new();
    let mut iter = branch.children_iter();
    while let Some(c) = iter.next() {
        children.push(c);
    }
    assert_eq!(children.len(), 0);

    branch.insert(10, NodeRef::Leaf(1, PhantomData));
    branch.insert(20, NodeRef::Leaf(2, PhantomData));

    let mut children: Vec<NodeRef<i32, i32>> = Vec::new();
    let mut iter = branch.children_iter();
    while let Some(c) = iter.next() {
        children.push(c);
    }
    assert_eq!(children.len(), 3);

    let iter = branch.children_iter();
    assert_eq!(iter.size_hint(), (3, Some(3)));
}
