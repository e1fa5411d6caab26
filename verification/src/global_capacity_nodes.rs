//! Leaf and branch nodes that do not store their capacity: the tree keeps
//! one capacity for all of them and passes it to each operation.
use crate::error::BPlusTreeError;
use crate::sorted::{child_index_for, child_pos, is_child_pos, is_lower_index, keys_sorted, search_keys};
use crate::types::{NodeId, NodeRef, TreeKey, NULL_NODE};
use vstd::prelude::*;

verus! {

/// Leaf node without a capacity field.
#[derive(Debug, Clone)]
pub struct GlobalCapacityLeafNode<K, V> {
    keys: Vec<K>,
    values: Vec<V>,
    next: NodeId,
}

/// Branch node without a capacity field.
#[derive(Debug, Clone)]
pub struct GlobalCapacityBranchNode<K, V> {
    keys: Vec<K>,
    children: Vec<NodeRef<K, V>>,
}

impl<K, V> GlobalCapacityLeafNode<K, V> {
    /// The keys, in order.
    pub closed spec fn spec_keys(&self) -> Seq<K> {
        self.keys@
    }

    /// The values, one per key.
    pub closed spec fn spec_values(&self) -> Seq<V> {
        self.values@
    }

    /// The next leaf.
    pub closed spec fn spec_next(&self) -> NodeId {
        self.next
    }
}

impl<K: TreeKey, V> GlobalCapacityLeafNode<K, V> {
    /// An empty leaf with room reserved for `capacity` entries.
    pub fn new(capacity: usize) -> (r: Self)
        ensures
            r.spec_keys() == Seq::<K>::empty(),
            r.spec_values() == Seq::<V>::empty(),
            r.spec_next() == NULL_NODE,
    {
        Self { keys: Vec::with_capacity(capacity), values: Vec::with_capacity(capacity), next: NULL_NODE }
    }

    /// A leaf with the given keys, values and next leaf.
    pub fn with_data(keys: Vec<K>, values: Vec<V>, next: NodeId) -> (r: Self)
        ensures
            r.spec_keys() == keys@,
            r.spec_values() == values@,
            r.spec_next() == next,
    {
        Self { keys, values, next }
    }

    /// The keys.
    pub fn keys(&self) -> (r: &Vec<K>)
        ensures
            r@ == self.spec_keys(),
    {
        &self.keys
    }

    /// The values.
    pub fn values(&self) -> (r: &Vec<V>)
        ensures
            r@ == self.spec_values(),
    {
        &self.values
    }

    /// The next leaf.
    pub fn next(&self) -> (r: NodeId)
        ensures
            r == self.spec_next(),
    {
        self.next
    }

    /// Set the next leaf.
    pub fn set_next(&mut self, next: NodeId)
        ensures
            final(self).spec_next() == next,
            final(self).spec_keys() == old(self).spec_keys(),
            final(self).spec_values() == old(self).spec_values(),
    {
        self.next = next;
    }

    /// Number of keys.
    pub fn len(&self) -> (r: usize)
        ensures
            r == self.spec_keys().len(),
    {
        self.keys.len()
    }

    /// Whether the leaf holds no key.
    pub fn is_empty(&self) -> (r: bool)
        ensures
            r == (self.spec_keys().len() == 0),
    {
        self.keys.len() == 0
    }

    /// Whether the leaf holds `capacity` keys or more.
    pub fn is_full(&self, capacity: usize) -> (r: bool)
        ensures
            r == (self.spec_keys().len() >= capacity),
    {
        self.keys.len() >= capacity
    }

    /// Whether one more key fits within `capacity`.
    pub fn can_insert(&self, capacity: usize) -> (r: bool)
        ensures
            r == (self.spec_keys().len() < capacity),
    {
        self.keys.len() < capacity
    }

    /// Whether the leaf holds fewer than half of `capacity` keys.
    pub fn is_underfull(&self, capacity: usize) -> (r: bool)
        ensures
            r == (self.spec_keys().len() < capacity / 2),
    {
        self.keys.len() < capacity / 2
    }

    /// Where `key` is or would be inserted.
    pub fn find_insert_position(&self, key: &K) -> (r: usize)
        requires
            keys_sorted(self.spec_keys()),
        ensures
            is_lower_index(self.spec_keys(), *key, r as int),
    {
        match search_keys(&self.keys, key) {
            Ok(pos) => pos,
            Err(pos) => pos,
        }
    }

    /// Insert an entry at `pos`, unless the leaf is full.
    pub fn insert_at(&mut self, pos: usize, key: K, value: V, capacity: usize) -> (r: Result<(), BPlusTreeError>)
        requires
            old(self).spec_keys().len() == old(self).spec_values().len(),
            pos <= old(self).spec_keys().len(),
        ensures
            final(self).spec_next() == old(self).spec_next(),
            r is Ok <==> old(self).spec_keys().len() < capacity,
            r is Ok ==> final(self).spec_keys() == old(self).spec_keys().insert(pos as int, key) && final(self).spec_values()
                == old(self).spec_values().insert(pos as int, value),
            r is Err ==> final(self).spec_keys() == old(self).spec_keys() && final(self).spec_values() == old(
                self,
            ).spec_values() && r->Err_0 is NodeError,
    {
        if self.is_full(capacity) {
            return Err(BPlusTreeError::NodeError(String::from_str("Node is full")));
        }
        self.keys.insert(pos, key);
        self.values.insert(pos, value);
        Ok(())
    }

    /// Take out the entry at `pos`.
    pub fn remove_at(&mut self, pos: usize) -> (r: (K, V))
        requires
            old(self).spec_keys().len() == old(self).spec_values().len(),
            pos < old(self).spec_keys().len(),
        ensures
            r.0 == old(self).spec_keys()[pos as int],
            r.1 == old(self).spec_values()[pos as int],
            final(self).spec_keys() == old(self).spec_keys().remove(pos as int),
            final(self).spec_values() == old(self).spec_values().remove(pos as int),
            final(self).spec_next() == old(self).spec_next(),
    {
        let key = self.keys.remove(pos);
        let value = self.values.remove(pos);
        (key, value)
    }

    /// The entry at `index`, if any.
    pub fn get_pair(&self, index: usize) -> (r: Option<(&K, &V)>)
        requires
            self.spec_keys().len() == self.spec_values().len(),
        ensures
            r == (if index < self.spec_keys().len() {
                Some((&self.spec_keys()[index as int], &self.spec_values()[index as int]))
            } else {
                None
            }),
    {
        if index < self.keys.len() {
            Some((&self.keys[index], &self.values[index]))
        } else {
            None
        }
    }

    /// The value at `index`, for changing, if any.
    pub fn get_value_mut(&mut self, index: usize) -> (r: Option<&mut V>)
        ensures
            final(self).spec_keys() == old(self).spec_keys(),
            final(self).spec_next() == old(self).spec_next(),
            index < old(self).spec_values().len() ==> r is Some && *r.unwrap() == old(self).spec_values()[index as int]
                && final(self).spec_values() == old(self).spec_values().update(index as int, *final(r.unwrap())),
            index >= old(self).spec_values().len() ==> r is None && final(self).spec_values() == old(self).spec_values(),
    {
        if index < self.values.len() {
            Some(&mut self.values[index])
        } else {
            None
        }
    }

    /// The values, for changing.
    pub fn values_mut(&mut self) -> (r: &mut Vec<V>)
        ensures
            r@ == old(self).spec_values(),
            final(self).spec_values() == final(r)@,
            final(self).spec_keys() == old(self).spec_keys(),
            final(self).spec_next() == old(self).spec_next(),
    {
        &mut self.values
    }

    /// Move the entries from `split_pos` on into a new leaf, which takes
    /// over the next link.
    pub fn split_at(&mut self, split_pos: usize, capacity: usize) -> (r: Self)
        requires
            old(self).spec_keys().len() == old(self).spec_values().len(),
            split_pos <= old(self).spec_keys().len(),
            split_pos <= capacity,
        ensures
            final(self).spec_keys() == old(self).spec_keys().subrange(0, split_pos as int),
            final(self).spec_values() == old(self).spec_values().subrange(0, split_pos as int),
            final(self).spec_next() == old(self).spec_next(),
            r.spec_keys() == old(self).spec_keys().subrange(split_pos as int, old(self).spec_keys().len() as int),
            r.spec_values() == old(self).spec_values().subrange(split_pos as int, old(self).spec_values().len() as int),
            r.spec_next() == old(self).spec_next(),
    {
        let right_keys = self.keys.split_off(split_pos);
        let right_values = self.values.split_off(split_pos);
        self.keys.reserve(capacity - self.keys.len());
        self.values.reserve(capacity - self.values.len());
        Self::with_data(right_keys, right_values, self.next)
    }

    /// Append the entries of `other` and take over its next link, unless
    /// together they exceed `capacity`.
    pub fn merge_with(&mut self, other: Self, capacity: usize) -> (r: Result<(), BPlusTreeError>)
        ensures
            r is Ok <==> old(self).spec_keys().len() + other.spec_keys().len() <= capacity,
            r is Ok ==> final(self).spec_keys() == old(self).spec_keys() + other.spec_keys() && final(self).spec_values()
                == old(self).spec_values() + other.spec_values() && final(self).spec_next() == other.spec_next(),
            r is Err ==> *final(self) == *old(self) && r->Err_0 is NodeError,
    {
        if self.keys.len() > capacity || other.keys.len() > capacity - self.keys.len() {
            return Err(BPlusTreeError::NodeError(String::from_str("Merge would exceed capacity")));
        }
        let mut other_keys = other.keys;
        let mut other_values = other.values;
        self.keys.append(&mut other_keys);
        self.values.append(&mut other_values);
        self.next = other.next;
        Ok(())
    }

    /// Move the last entry of `left` to the front of this leaf and make its
    /// key the separator; nothing changes when `left` is empty.
    pub fn borrow_from_left(&mut self, left: &mut Self, separator_key: &mut K)
        requires
            old(left).spec_keys().len() == old(left).spec_values().len(),
        ensures
            old(left).spec_keys().len() == 0 ==> *final(self) == *old(self) && *final(left) == *old(left)
                && *final(separator_key) == *old(separator_key),
            old(left).spec_keys().len() > 0 ==> {
                &&& final(left).spec_keys() == old(left).spec_keys().drop_last()
                &&& final(left).spec_values() == old(left).spec_values().drop_last()
                &&& final(left).spec_next() == old(left).spec_next()
                &&& final(self).spec_keys() == old(self).spec_keys().insert(0, old(left).spec_keys().last())
                &&& final(self).spec_values() == old(self).spec_values().insert(0, old(left).spec_values().last())
                &&& final(self).spec_next() == old(self).spec_next()
                &&& *final(separator_key) == old(left).spec_keys().last()
            },
    {
        if left.keys.len() > 0 {
            let key = left.keys.pop().unwrap();
            let value = left.values.pop().unwrap();
            self.keys.insert(0, key);
            self.values.insert(0, value);
            *separator_key = key;
        }
    }

    /// Move the first entry of `right` to the end of this leaf; the
    /// separator becomes `right`'s new first key when it has one.
    pub fn borrow_from_right(&mut self, right: &mut Self, separator_key: &mut K)
        requires
            old(right).spec_keys().len() == old(right).spec_values().len(),
        ensures
            old(right).spec_keys().len() == 0 ==> *final(self) == *old(self) && *final(right) == *old(right)
                && *final(separator_key) == *old(separator_key),
            old(right).spec_keys().len() > 0 ==> {
                &&& final(right).spec_keys() == old(right).spec_keys().remove(0)
                &&& final(right).spec_values() == old(right).spec_values().remove(0)
                &&& final(right).spec_next() == old(right).spec_next()
                &&& final(self).spec_keys() == old(self).spec_keys().push(old(right).spec_keys()[0])
                &&& final(self).spec_values() == old(self).spec_values().push(old(right).spec_values()[0])
                &&& final(self).spec_next() == old(self).spec_next()
                &&& *final(separator_key) == (if old(right).spec_keys().len() > 1 {
                    old(right).spec_keys()[1]
                } else {
                    *old(separator_key)
                })
            },
    {
        if right.keys.len() > 0 {
            let key = right.keys.remove(0);
            let value = right.values.remove(0);
            self.keys.push(key);
            self.values.push(value);
            if right.keys.len() > 0 {
                *separator_key = right.keys[0];
            }
        }
    }
}

impl<K, V> GlobalCapacityBranchNode<K, V> {
    /// The separator keys, in order.
    pub closed spec fn spec_keys(&self) -> Seq<K> {
        self.keys@
    }

    /// The children, one more than keys.
    pub closed spec fn spec_children(&self) -> Seq<NodeRef<K, V>> {
        self.children@
    }
}

impl<K: TreeKey, V> GlobalCapacityBranchNode<K, V> {
    /// An empty branch with room reserved for `capacity` keys.
    pub fn new(capacity: usize) -> (r: Self)
        requires
            capacity < usize::MAX,
        ensures
            r.spec_keys() == Seq::<K>::empty(),
            r.spec_children() == Seq::<NodeRef<K, V>>::empty(),
    {
        Self { keys: Vec::with_capacity(capacity), children: Vec::with_capacity(capacity + 1) }
    }

    /// A branch with the given keys and children.
    pub fn with_data(keys: Vec<K>, children: Vec<NodeRef<K, V>>) -> (r: Self)
        ensures
            r.spec_keys() == keys@,
            r.spec_children() == children@,
    {
        Self { keys, children }
    }

    /// The separator keys.
    pub fn keys(&self) -> (r: &Vec<K>)
        ensures
            r@ == self.spec_keys(),
    {
        &self.keys
    }

    /// The children.
    pub fn children(&self) -> (r: &Vec<NodeRef<K, V>>)
        ensures
            r@ == self.spec_children(),
    {
        &self.children
    }

    /// The children, for changing.
    pub fn children_mut(&mut self) -> (r: &mut Vec<NodeRef<K, V>>)
        ensures
            r@ == old(self).spec_children(),
            final(self).spec_children() == final(r)@,
            final(self).spec_keys() == old(self).spec_keys(),
    {
        &mut self.children
    }

    /// Number of keys.
    pub fn len(&self) -> (r: usize)
        ensures
            r == self.spec_keys().len(),
    {
        self.keys.len()
    }

    /// Whether the branch holds no key.
    pub fn is_empty(&self) -> (r: bool)
        ensures
            r == (self.spec_keys().len() == 0),
    {
        self.keys.len() == 0
    }

    /// Whether the branch holds `capacity` keys or more.
    pub fn is_full(&self, capacity: usize) -> (r: bool)
        ensures
            r == (self.spec_keys().len() >= capacity),
    {
        self.keys.len() >= capacity
    }

    /// Whether one more key fits within `capacity`.
    pub fn can_insert(&self, capacity: usize) -> (r: bool)
        ensures
            r == (self.spec_keys().len() < capacity),
    {
        self.keys.len() < capacity
    }

    /// Whether the branch holds fewer than half of `capacity` keys.
    pub fn is_underfull(&self, capacity: usize) -> (r: bool)
        ensures
            r == (self.spec_keys().len() < capacity / 2),
    {
        self.keys.len() < capacity / 2
    }

    /// Index of the child that covers `key`.
    pub fn find_child_index(&self, key: &K) -> (r: usize)
        requires
            keys_sorted(self.spec_keys()),
        ensures
            r == child_pos(self.spec_keys(), *key),
            is_child_pos(self.spec_keys(), *key, r as int),
    {
        child_index_for(&self.keys, key)
    }

    /// The child at `index`, if any.
    pub fn get_child(&self, index: usize) -> (r: Option<&NodeRef<K, V>>)
        ensures
            r == (if index < self.spec_children().len() {
                Some(&self.spec_children()[index as int])
            } else {
                None
            }),
    {
        if index < self.children.len() {
            Some(&self.children[index])
        } else {
            None
        }
    }

    /// Insert a key at `pos` with the child after it, unless the branch is
    /// full.
    pub fn insert_at(&mut self, pos: usize, key: K, child: NodeRef<K, V>, capacity: usize) -> (r: Result<(), BPlusTreeError>)
        requires
            pos <= old(self).spec_keys().len(),
            pos < old(self).spec_children().len(),
        ensures
            r is Ok <==> old(self).spec_keys().len() < capacity,
            r is Ok ==> final(self).spec_keys() == old(self).spec_keys().insert(pos as int, key) && final(self).spec_children()
                == old(self).spec_children().insert(pos + 1, child),
            r is Err ==> *final(self) == *old(self) && r->Err_0 is NodeError,
    {
        if self.is_full(capacity) {
            return Err(BPlusTreeError::NodeError(String::from_str("Node is full")));
        }
        self.keys.insert(pos, key);
        self.children.insert(pos + 1, child);
        Ok(())
    }

    /// Take out the key at `pos` and the child after it.
    pub fn remove_at(&mut self, pos: usize) -> (r: (K, NodeRef<K, V>))
        requires
            pos < old(self).spec_keys().len(),
            pos < usize::MAX,
            pos + 1 < old(self).spec_children().len(),
        ensures
            r.0 == old(self).spec_keys()[pos as int],
            r.1 == old(self).spec_children()[pos + 1],
            final(self).spec_keys() == old(self).spec_keys().remove(pos as int),
            final(self).spec_children() == old(self).spec_children().remove(pos + 1),
    {
        let key = self.keys.remove(pos);
        let child_index = pos + 1;
        let child = self.children.remove(child_index);
        (key, child)
    }

    /// Split at key `split_pos`: that key goes up as separator, the keys and
    /// children after it move into a new branch.
    pub fn split_at(&mut self, split_pos: usize, capacity: usize) -> (r: (K, Self))
        requires
            old(self).spec_children().len() == old(self).spec_keys().len() + 1,
            split_pos < old(self).spec_keys().len(),
            split_pos <= capacity,
            capacity < usize::MAX,
        ensures
            r.0 == old(self).spec_keys()[split_pos as int],
            final(self).spec_keys() == old(self).spec_keys().subrange(0, split_pos as int),
            final(self).spec_children() == old(self).spec_children().subrange(0, split_pos + 1),
            r.1.spec_keys() == old(self).spec_keys().subrange(split_pos + 1, old(self).spec_keys().len() as int),
            r.1.spec_children() == old(self).spec_children().subrange(split_pos + 1, old(self).spec_children().len() as int),
    {
        let separator_key = self.keys.remove(split_pos);
        let right_keys = self.keys.split_off(split_pos);
        let right_children = self.children.split_off(split_pos + 1);
        self.keys.reserve(capacity - self.keys.len());
        self.children.reserve(capacity + 1 - self.children.len());
        let right_node = Self::with_data(right_keys, right_children);
        proof {
            assert(right_node.spec_keys() =~= old(self).spec_keys().subrange(split_pos + 1, old(self).spec_keys().len() as int));
        }
        (separator_key, right_node)
    }

    /// Append the separator and the keys and children of `other`, unless
    /// together they exceed `capacity` keys.
    pub fn merge_with(&mut self, separator: K, other: Self, capacity: usize) -> (r: Result<(), BPlusTreeError>)
        ensures
            r is Ok <==> old(self).spec_keys().len() + 1 + other.spec_keys().len() <= capacity,
            r is Ok ==> final(self).spec_keys() == old(self).spec_keys().push(separator) + other.spec_keys()
                && final(self).spec_children() == old(self).spec_children() + other.spec_children(),
            r is Err ==> *final(self) == *old(self) && r->Err_0 is NodeError,
    {
        if self.keys.len() >= capacity || other.keys.len() > capacity - self.keys.len() - 1 {
            return Err(BPlusTreeError::NodeError(String::from_str("Merge would exceed capacity")));
        }
        self.keys.push(separator);
        let mut other_keys = other.keys;
        let mut other_children = other.children;
        self.keys.append(&mut other_keys);
        self.children.append(&mut other_children);
        Ok(())
    }

    /// Rotate through the separator from `left`: the separator comes down
    /// to the front of this branch with `left`'s last child, and `left`'s
    /// last key goes up; nothing changes when `left` has no key or child.
    pub fn borrow_from_left(&mut self, left: &mut Self, separator_key: &mut K)
        ensures
            (old(left).spec_keys().len() == 0 || old(left).spec_children().len() == 0) ==> {
                &&& *final(self) == *old(self)
                &&& *final(separator_key) == *old(separator_key)
                &&& final(left).spec_keys() == (if old(left).spec_keys().len() > 0 {
                    old(left).spec_keys().drop_last()
                } else {
                    old(left).spec_keys()
                })
                &&& final(left).spec_children() == (if old(left).spec_children().len() > 0 {
                    old(left).spec_children().drop_last()
                } else {
                    old(left).spec_children()
                })
            },
            (old(left).spec_keys().len() > 0 && old(left).spec_children().len() > 0) ==> {
                &&& final(left).spec_keys() == old(left).spec_keys().drop_last()
                &&& final(left).spec_children() == old(left).spec_children().drop_last()
                &&& final(self).spec_keys() == old(self).spec_keys().insert(0, *old(separator_key))
                &&& final(self).spec_children() == old(self).spec_children().insert(0, old(left).spec_children().last())
                &&& *final(separator_key) == old(left).spec_keys().last()
            },
    {
        let key = left.keys.pop();
        let child = left.children.pop();
        match (key, child) {
            (Some(key), Some(child)) => {
                self.keys.insert(0, *separator_key);
                self.children.insert(0, child);
                *separator_key = key;
            },
            _ => {},
        }
    }

    /// Rotate through the separator from `right`: the separator comes down
    /// to the end of this branch with `right`'s first child, and `right`'s
    /// first key goes up; nothing changes when `right` has no key.
    pub fn borrow_from_right(&mut self, right: &mut Self, separator_key: &mut K)
        requires
            old(right).spec_children().len() == old(right).spec_keys().len() + 1,
        ensures
            old(right).spec_keys().len() == 0 ==> *final(self) == *old(self) && *final(right) == *old(right)
                && *final(separator_key) == *old(separator_key),
            old(right).spec_keys().len() > 0 ==> {
                &&& final(right).spec_keys() == old(right).spec_keys().remove(0)
                &&& final(right).spec_children() == old(right).spec_children().remove(0)
                &&& final(self).spec_keys() == old(self).spec_keys().push(*old(separator_key))
                &&& final(self).spec_children() == old(self).spec_children().push(old(right).spec_children()[0])
                &&& *final(separator_key) == old(right).spec_keys()[0]
            },
    {
        if right.keys.len() > 0 {
            let key = right.keys.remove(0);
            let child = right.children.remove(0);
            self.keys.push(*separator_key);
            self.children.push(child);
            *separator_key = key;
        }
    }
}

} // verus!
