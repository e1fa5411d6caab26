//! Leaf and branch nodes: sorted keys with their values or children, and
//! the node-level steps of insertion, splitting, borrowing and merging.
use crate::error::BPlusTreeError;
use crate::sorted::{child_index_for, child_pos, is_child_pos, is_lower_index, keys_sorted, search_keys, zip_entries};
use crate::types::{NodeId, NodeRef, TreeKey, DEFAULT_CAPACITY, NULL_NODE};
use vstd::prelude::*;

verus! {

/// Leaf node containing key-value pairs.
#[derive(Debug, Clone)]
pub struct LeafNode<K, V> {
    /// Maximum number of keys this node can hold.
    pub capacity: usize,
    /// Sorted list of keys.
    pub keys: Vec<K>,
    /// List of values corresponding to keys.
    pub values: Vec<V>,
    /// Next leaf node in the linked list (for range queries).
    pub next: NodeId,
}

/// Internal (branch) node containing keys and child pointers.
#[derive(Debug, Clone)]
pub struct BranchNode<K, V> {
    /// Maximum number of keys this node can hold.
    pub capacity: usize,
    /// Sorted list of separator keys.
    pub keys: Vec<K>,
    /// List of child nodes (leaves or other branches).
    pub children: Vec<NodeRef<K, V>>,
}

/// Node data that a split produces, for the caller to allocate.
pub enum SplitNodeData<K, V> {
    Leaf(LeafNode<K, V>),
    Branch(BranchNode<K, V>),
    CompressedBranch(crate::compressed_branch::CompressedBranchNode<K, V>),
}

/// Result of an insertion operation on a node.
pub enum InsertResult<K, V> {
    /// Insertion completed without splitting. Contains the old value if key existed.
    Updated(Option<V>),
    /// Insertion caused a split; the new right node still has to be allocated.
    Split { old_value: Option<V>, new_node_data: SplitNodeData<K, V>, separator_key: K },
    /// Internal error occurred during insertion.
    Error(BPlusTreeError),
}

/// Result of a removal operation on a node.
pub enum RemoveResult<V> {
    /// The removed value if the key existed, and whether the node is now underfull.
    Updated(Option<V>, bool),
}

/// Where a full leaf of `total` keys is split: about half, but leaving at
/// least `capacity / 2` keys on each side.
pub open spec fn leaf_split_point(total: int, capacity: int) -> int {
    let half = total / 2 + total % 2;
    let lower = if half > capacity / 2 {
        half
    } else {
        capacity / 2
    };
    if lower < total - capacity / 2 {
        lower
    } else {
        total - capacity / 2
    }
}

impl<K, V> LeafNode<K, V> {
    /// Creates a new leaf node with the specified capacity.
    pub fn new(capacity: usize) -> (r: Self)
        ensures
            r.capacity == capacity,
            r.keys@ == Seq::<K>::empty(),
            r.values@ == Seq::<V>::empty(),
            r.next == NULL_NODE,
    {
        Self {
            capacity,
            keys: Vec::with_capacity(capacity),
            values: Vec::with_capacity(capacity),
            next: NULL_NODE,
        }
    }

    /// Creates a new leaf node with default capacity.
    pub fn with_default_capacity() -> (r: Self)
        ensures
            r.capacity == DEFAULT_CAPACITY,
            r.keys@ == Seq::<K>::empty(),
            r.values@ == Seq::<V>::empty(),
            r.next == NULL_NODE,
    {
        Self::new(DEFAULT_CAPACITY)
    }

    /// Creates a new leaf node with storage reserved for `capacity` entries.
    pub fn with_reserved_capacity(capacity: usize) -> (r: Self)
        ensures
            r.capacity == capacity,
            r.keys@ == Seq::<K>::empty(),
            r.values@ == Seq::<V>::empty(),
            r.next == NULL_NODE,
    {
        Self {
            capacity,
            keys: Vec::with_capacity(capacity),
            values: Vec::with_capacity(capacity),
            next: NULL_NODE,
        }
    }
}

impl<K, V> Default for LeafNode<K, V> {
    fn default() -> (r: Self)
        ensures
            r.capacity == DEFAULT_CAPACITY,
            r.keys@ == Seq::<K>::empty(),
            r.values@ == Seq::<V>::empty(),
            r.next == NULL_NODE,
    {
        Self::with_default_capacity()
    }
}

impl<K: TreeKey, V> LeafNode<K, V> {
    /// Keys sorted, one value per key.
    pub open spec fn wf(&self) -> bool {
        &&& self.keys@.len() == self.values@.len()
        &&& keys_sorted(self.keys@)
    }

    /// The leaf's entries in key order.
    pub open spec fn entries(&self) -> Seq<(K, V)> {
        zip_entries(self.keys@, self.values@)
    }

    /// Get a value by key from this leaf node.
    pub fn get(&self, key: &K) -> (r: Option<&V>)
        requires
            self.wf(),
        ensures
            !self.keys@.contains(*key) ==> r is None,
            forall|i: int|
                0 <= i < self.keys@.len() && self.keys@[i] == *key ==> r == Some(
                    &self.values@[i],
                ),
    {
        match search_keys(&self.keys, key) {
            Ok(index) => {
                proof {
                    assert forall|i: int|
                        0 <= i < self.keys@.len() && self.keys@[i] == *key implies i
                        == index by {
                        if i < index {
                            assert(self.keys@[i].rank() < self.keys@[index as int].rank());
                        } else if i > index {
                            assert(self.keys@[index as int].rank() < self.keys@[i].rank());
                        }
                    }
                }
                Some(&self.values[index])
            },
            Err(_) => None,
        }
    }

    /// Get a mutable reference to a value by key from this leaf node.
    pub fn get_mut(&mut self, key: &K) -> (r: Option<&mut V>)
        requires
            old(self).wf(),
        ensures
            final(self).keys == old(self).keys,
            final(self).capacity == old(self).capacity,
            final(self).next == old(self).next,
            !old(self).keys@.contains(*key) ==> r is None && final(self).values == old(self).values,
            forall|i: int|
                0 <= i < old(self).keys@.len() && old(self).keys@[i] == *key ==> {
                    &&& r is Some
                    &&& *r.unwrap() == old(self).values@[i]
                    &&& final(self).values@ == old(self).values@.update(i, *final(r.unwrap()))
                },
    {
        match search_keys(&self.keys, key) {
            Ok(index) => {
                proof {
                    assert forall|i: int|
                        0 <= i < self.keys@.len() && self.keys@[i] == *key implies i
                        == index by {
                        if i < index {
                            assert(self.keys@[i].rank() < self.keys@[index as int].rank());
                        } else if i > index {
                            assert(self.keys@[index as int].rank() < self.keys@[i].rank());
                        }
                    }
                }
                Some(&mut self.values[index])
            },
            Err(_) => None,
        }
    }

    /// Returns the number of key-value pairs in this leaf.
    pub fn len(&self) -> (r: usize)
        ensures
            r == self.keys@.len(),
    {
        self.keys.len()
    }

    /// Whether the leaf holds no key.
    pub fn keys_is_empty(&self) -> (r: bool)
        ensures
            r == (self.keys@.len() == 0),
    {
        self.keys.len() == 0
    }

    /// Number of keys in the leaf.
    pub fn keys_len(&self) -> (r: usize)
        ensures
            r == self.keys@.len(),
    {
        self.keys.len()
    }

    /// Number of values in the leaf.
    pub fn values_len(&self) -> (r: usize)
        ensures
            r == self.values@.len(),
    {
        self.values.len()
    }

    /// The key at `index`, if there is one.
    pub fn get_key(&self, index: usize) -> (r: Option<&K>)
        ensures
            r == (if index < self.keys@.len() {
                Some(&self.keys@[index as int])
            } else {
                None
            }),
    {
        if index < self.keys.len() {
            Some(&self.keys[index])
        } else {
            None
        }
    }

    /// The value at `index`, if there is one.
    pub fn get_value(&self, index: usize) -> (r: Option<&V>)
        ensures
            r == (if index < self.values@.len() {
                Some(&self.values@[index as int])
            } else {
                None
            }),
    {
        if index < self.values.len() {
            Some(&self.values[index])
        } else {
            None
        }
    }

    /// The smallest key, if any.
    pub fn first_key(&self) -> (r: Option<&K>)
        ensures
            r == (if self.keys@.len() > 0 {
                Some(&self.keys@[0])
            } else {
                None
            }),
    {
        if self.keys.len() > 0 {
            Some(&self.keys[0])
        } else {
            None
        }
    }

    /// The largest key, if any.
    pub fn last_key(&self) -> (r: Option<&K>)
        ensures
            r == (if self.keys@.len() > 0 {
                Some(&self.keys@.last())
            } else {
                None
            }),
    {
        if self.keys.len() > 0 {
            Some(&self.keys[self.keys.len() - 1])
        } else {
            None
        }
    }

    /// Get a reference to the keys in this leaf node.
    pub fn keys(&self) -> (r: &Vec<K>)
        ensures
            r == &self.keys,
    {
        &self.keys
    }

    /// Get a reference to the values in this leaf node.
    pub fn values(&self) -> (r: &Vec<V>)
        ensures
            r == &self.values,
    {
        &self.values
    }

    /// Get a mutable reference to the values in this leaf node.
    pub fn values_mut(&mut self) -> (r: &mut Vec<V>)
        ensures
            *r == old(self).values,
            final(self).values == *final(r),
            final(self).keys == old(self).keys,
            final(self).capacity == old(self).capacity,
            final(self).next == old(self).next,
    {
        &mut self.values
    }

    /// Insert a key-value pair: replace the value of an existing key, insert
    /// in order when there is room, else insert and split off the right half.
    pub fn insert(&mut self, key: K, value: V) -> (r: InsertResult<K, V>)
        requires
            old(self).wf(),
            old(self).capacity > 0 || old(self).keys@.len() > 0,
        ensures
            final(self).capacity == old(self).capacity,
            match r {
                InsertResult::Updated(Some(old_v)) => exists|i: int|
                    0 <= i < old(self).keys@.len() && old(self).keys@[i] == key && old_v == old(
                        self,
                    ).values@[i] && final(self).keys == old(self).keys && final(self).values@
                        == old(self).values@.update(i, value) && final(self).next == old(
                        self,
                    ).next,
                InsertResult::Updated(None) => {
                    &&& !old(self).keys@.contains(key)
                    &&& old(self).keys@.len() < old(self).capacity
                    &&& final(self).next == old(self).next
                    &&& exists|p: int|
                        is_lower_index(old(self).keys@, key, p) && final(self).keys@ == old(
                            self,
                        ).keys@.insert(p, key) && final(self).values@ == old(
                            self,
                        ).values@.insert(p, value)
                },
                InsertResult::Split { old_value, new_node_data, separator_key } => {
                    &&& old_value is None
                    &&& !old(self).keys@.contains(key)
                    &&& old(self).keys@.len() >= old(self).capacity
                    &&& new_node_data is Leaf
                    &&& {
                        let right = new_node_data->Leaf_0;
                        let mid = leaf_split_point(
                            old(self).keys@.len() + 1 as int,
                            old(self).capacity as int,
                        );
                        exists|p: int|
                            #![trigger old(self).keys@.insert(p, key)]
                            is_lower_index(old(self).keys@, key, p) && final(self).keys@ == old(
                                self,
                            ).keys@.insert(p, key).subrange(0, mid) && right.keys@ == old(
                                self,
                            ).keys@.insert(p, key).subrange(mid, old(self).keys@.len() + 1 as int)
                                && final(self).values@ == old(self).values@.insert(
                                p,
                                value,
                            ).subrange(0, mid) && right.values@ == old(self).values@.insert(
                                p,
                                value,
                            ).subrange(mid, old(self).keys@.len() + 1 as int)
                            && right.keys@.len() > 0 && separator_key == right.keys@[0]
                            && right.capacity == old(self).capacity && right.next == old(
                                self,
                            ).next && final(self).next == NULL_NODE
                    }
                },
                InsertResult::Error(_) => false,
            },
    {
        match search_keys(&self.keys, &key) {
            Ok(index) => {
                let ghost new_value = value;
                let mut value = value;
                std::mem::swap(&mut self.values[index], &mut value);
                proof {
                    assert(self.values@ =~= old(self).values@.update(index as int, new_value));
                }
                InsertResult::Updated(Some(value))
            },
            Err(index) => {
                proof {
                    assert(!old(self).keys@.contains(key)) by {
                        if old(self).keys@.contains(key) {
                            let j = choose|j: int|
                                0 <= j < old(self).keys@.len() && old(self).keys@[j] == key;
                            assert(old(self).keys@[j].rank() == key.rank());
                        }
                    }
                }
                if !self.is_full() {
                    self.insert_at_index(index, key, value);
                    return InsertResult::Updated(None);
                }
                self.insert_at_index(index, key, value);
                let new_right = self.split();
                let separator_key = new_right.keys[0];
                InsertResult::Split {
                    old_value: None,
                    new_node_data: SplitNodeData::Leaf(new_right),
                    separator_key,
                }
            },
        }
    }

    /// Insert a key-value pair at the specified index.
    pub(crate) fn insert_at_index(&mut self, index: usize, key: K, value: V)
        requires
            index <= old(self).keys@.len(),
            old(self).keys@.len() == old(self).values@.len(),
        ensures
            final(self).keys@ == old(self).keys@.insert(index as int, key),
            final(self).values@ == old(self).values@.insert(index as int, value),
            final(self).capacity == old(self).capacity,
            final(self).next == old(self).next,
    {
        self.keys.insert(index, key);
        self.values.insert(index, value);
    }

    /// Split this leaf node, returning the new right node, which takes over
    /// the `next` link; this node's link is cleared.
    pub fn split(&mut self) -> (r: LeafNode<K, V>)
        requires
            old(self).keys@.len() == old(self).values@.len(),
            old(self).capacity / 2 <= old(self).keys@.len(),
        ensures
            ({
                let mid = leaf_split_point(old(self).keys@.len() as int, old(self).capacity as int);
                &&& final(self).keys@ == old(self).keys@.subrange(0, mid)
                &&& final(self).values@ == old(self).values@.subrange(0, mid)
                &&& r.keys@ == old(self).keys@.subrange(mid, old(self).keys@.len() as int)
                &&& r.values@ == old(self).values@.subrange(mid, old(self).keys@.len() as int)
            }),
            final(self).capacity == old(self).capacity,
            final(self).next == NULL_NODE,
            r.capacity == old(self).capacity,
            r.next == old(self).next,
    {
        let min_keys = self.min_keys();
        let total_keys = self.keys.len();
        let half = total_keys / 2 + total_keys % 2;
        let mid = if half > min_keys {
            half
        } else {
            min_keys
        };
        let mid = if mid < total_keys - min_keys {
            mid
        } else {
            total_keys - min_keys
        };
        let right_keys = self.keys.split_off(mid);
        let right_values = self.values.split_off(mid);
        let new_right = LeafNode {
            capacity: self.capacity,
            keys: right_keys,
            values: right_values,
            next: self.next,
        };
        self.next = NULL_NODE;
        new_right
    }

    /// Remove a key-value pair; also reports whether the node is now underfull.
    pub fn remove(&mut self, key: &K) -> (r: (Option<V>, bool))
        requires
            old(self).wf(),
        ensures
            final(self).capacity == old(self).capacity,
            final(self).next == old(self).next,
            !old(self).keys@.contains(*key) ==> r == (None::<V>, false) && *final(self) == *old(
                self,
            ),
            forall|i: int|
                0 <= i < old(self).keys@.len() && old(self).keys@[i] == *key ==> {
                    &&& r.0 == Some(old(self).values@[i])
                    &&& final(self).keys@ == old(self).keys@.remove(i)
                    &&& final(self).values@ == old(self).values@.remove(i)
                    &&& r.1 == (final(self).keys@.len() < old(self).capacity / 2)
                },
    {
        match search_keys(&self.keys, key) {
            Ok(index) => {
                proof {
                    assert forall|i: int|
                        0 <= i < self.keys@.len() && self.keys@[i] == *key implies i
                        == index by {
                        if i < index {
                            assert(self.keys@[i].rank() < self.keys@[index as int].rank());
                        } else if i > index {
                            assert(self.keys@[index as int].rank() < self.keys@[i].rank());
                        }
                    }
                }
                let removed_value = self.values.remove(index);
                self.keys.remove(index);
                let is_underfull = self.is_underfull();
                (Some(removed_value), is_underfull)
            },
            Err(_) => {
                proof {
                    if old(self).keys@.contains(*key) {
                        let j = choose|j: int|
                            0 <= j < old(self).keys@.len() && old(self).keys@[j] == *key;
                        assert(old(self).keys@[j].rank() == key.rank());
                    }
                }
                (None, false)
            },
        }
    }

    /// Returns true if this leaf node is empty.
    pub fn is_empty(&self) -> (r: bool)
        ensures
            r == (self.keys@.len() == 0),
    {
        self.keys.len() == 0
    }

    /// Returns true if this leaf node is at capacity.
    pub fn is_full(&self) -> (r: bool)
        ensures
            r == (self.keys@.len() >= self.capacity),
    {
        self.keys.len() >= self.capacity
    }

    /// Returns true if this leaf holds more keys than its capacity.
    pub fn needs_split(&self) -> (r: bool)
        ensures
            r == (self.keys@.len() > self.capacity),
    {
        self.keys.len() > self.capacity
    }

    /// Returns true if this leaf node is below minimum occupancy.
    pub fn is_underfull(&self) -> (r: bool)
        ensures
            r == (self.keys@.len() < self.capacity / 2),
    {
        self.keys.len() < self.min_keys()
    }

    /// Returns true if this leaf can give a key to a sibling.
    pub fn can_donate(&self) -> (r: bool)
        ensures
            r == (self.keys@.len() > self.capacity / 2),
    {
        self.keys.len() > self.min_keys()
    }

    /// The minimum number of keys a non-root leaf should have.
    pub fn min_keys(&self) -> (r: usize)
        ensures
            r == self.capacity / 2,
    {
        self.capacity / 2
    }

    /// Give up the last entry, if the leaf can donate.
    pub fn borrow_last(&mut self) -> (r: Option<(K, V)>)
        requires
            old(self).keys@.len() == old(self).values@.len(),
        ensures
            final(self).capacity == old(self).capacity,
            final(self).next == old(self).next,
            old(self).keys@.len() > old(self).capacity / 2 ==> {
                &&& r == Some((old(self).keys@.last(), old(self).values@.last()))
                &&& final(self).keys@ == old(self).keys@.drop_last()
                &&& final(self).values@ == old(self).values@.drop_last()
            },
            old(self).keys@.len() <= old(self).capacity / 2 ==> r is None && *final(self) == *old(
                self,
            ),
    {
        if self.keys.len() == 0 || !self.can_donate() {
            return None;
        }
        let k = self.keys.pop().unwrap();
        let v = self.values.pop().unwrap();
        Some((k, v))
    }

    /// Give up the first entry, if the leaf can donate.
    pub fn borrow_first(&mut self) -> (r: Option<(K, V)>)
        requires
            old(self).keys@.len() == old(self).values@.len(),
        ensures
            final(self).capacity == old(self).capacity,
            final(self).next == old(self).next,
            old(self).keys@.len() > old(self).capacity / 2 ==> {
                &&& r == Some((old(self).keys@[0], old(self).values@[0]))
                &&& final(self).keys@ == old(self).keys@.remove(0)
                &&& final(self).values@ == old(self).values@.remove(0)
            },
            old(self).keys@.len() <= old(self).capacity / 2 ==> r is None && *final(self) == *old(
                self,
            ),
    {
        if self.keys.len() == 0 || !self.can_donate() {
            return None;
        }
        let k = self.keys.remove(0);
        let v = self.values.remove(0);
        Some((k, v))
    }

    /// Accept an entry borrowed from the left sibling, at the front.
    pub fn accept_from_left(&mut self, key: K, value: V)
        ensures
            final(self).keys@ == old(self).keys@.insert(0, key),
            final(self).values@ == old(self).values@.insert(0, value),
            final(self).capacity == old(self).capacity,
            final(self).next == old(self).next,
    {
        self.keys.insert(0, key);
        self.values.insert(0, value);
    }

    /// Accept an entry borrowed from the right sibling, at the back.
    pub fn accept_from_right(&mut self, key: K, value: V)
        ensures
            final(self).keys@ == old(self).keys@.push(key),
            final(self).values@ == old(self).values@.push(value),
            final(self).capacity == old(self).capacity,
            final(self).next == old(self).next,
    {
        self.keys.push(key);
        self.values.push(value);
    }

    /// Move all entries of `other` to the end of this leaf; returns the
    /// link `other` had, which is cleared.
    pub fn merge_from(&mut self, other: &mut LeafNode<K, V>) -> (r: NodeId)
        ensures
            final(self).keys@ == old(self).keys@ + old(other).keys@,
            final(self).values@ == old(self).values@ + old(other).values@,
            final(self).capacity == old(self).capacity,
            final(self).next == old(self).next,
            final(other).keys@ == Seq::<K>::empty(),
            final(other).values@ == Seq::<V>::empty(),
            final(other).next == NULL_NODE,
            final(other).capacity == old(other).capacity,
            r == old(other).next,
    {
        self.keys.append(&mut other.keys);
        self.values.append(&mut other.values);
        let other_next = other.next;
        other.next = NULL_NODE;
        other_next
    }

    /// Take all content out of this leaf.
    pub fn extract_all(&mut self) -> (r: (Vec<K>, Vec<V>, NodeId))
        ensures
            r.0@ == old(self).keys@,
            r.1@ == old(self).values@,
            r.2 == old(self).next,
            final(self).keys@ == Seq::<K>::empty(),
            final(self).values@ == Seq::<V>::empty(),
            final(self).next == NULL_NODE,
            final(self).capacity == old(self).capacity,
    {
        let mut keys = Vec::new();
        std::mem::swap(&mut keys, &mut self.keys);
        let mut values = Vec::new();
        std::mem::swap(&mut values, &mut self.values);
        let next = self.next;
        self.next = NULL_NODE;
        (keys, values, next)
    }
}

impl<K, V> BranchNode<K, V> {
    /// Creates a new branch node with the specified capacity.
    pub fn new(capacity: usize) -> (r: Self)
        requires
            capacity < usize::MAX,
        ensures
            r.capacity == capacity,
            r.keys@ == Seq::<K>::empty(),
            r.children@ == Seq::<NodeRef<K, V>>::empty(),
    {
        Self { capacity, keys: Vec::with_capacity(capacity), children: Vec::with_capacity(capacity + 1) }
    }

    /// Creates a new branch node with default capacity.
    pub fn with_default_capacity() -> (r: Self)
        ensures
            r.capacity == DEFAULT_CAPACITY,
            r.keys@ == Seq::<K>::empty(),
            r.children@ == Seq::<NodeRef<K, V>>::empty(),
    {
        Self::new(DEFAULT_CAPACITY)
    }

    /// Creates a new branch node with storage reserved for `capacity` keys.
    pub fn with_reserved_capacity(capacity: usize) -> (r: Self)
        requires
            capacity < usize::MAX,
        ensures
            r.capacity == capacity,
            r.keys@ == Seq::<K>::empty(),
            r.children@ == Seq::<NodeRef<K, V>>::empty(),
    {
        Self { capacity, keys: Vec::with_capacity(capacity), children: Vec::with_capacity(capacity + 1) }
    }
}

impl<K, V> Default for BranchNode<K, V> {
    fn default() -> (r: Self)
        ensures
            r.capacity == DEFAULT_CAPACITY,
            r.keys@ == Seq::<K>::empty(),
            r.children@ == Seq::<NodeRef<K, V>>::empty(),
    {
        Self::with_default_capacity()
    }
}

impl<K: TreeKey, V> BranchNode<K, V> {
    /// Index of the child that covers `key`.
    pub fn find_child_index(&self, key: &K) -> (r: usize)
        requires
            keys_sorted(self.keys@),
        ensures
            r == child_pos(self.keys@, *key),
            is_child_pos(self.keys@, *key, r as int),
    {
        child_index_for(&self.keys, key)
    }

    /// The child that covers `key`, if the node has it.
    pub fn get_child(&self, key: &K) -> (r: Option<&NodeRef<K, V>>)
        requires
            keys_sorted(self.keys@),
        ensures
            ({
                let i = child_pos(self.keys@, *key);
                r == if i < self.children@.len() {
                    Some(&self.children@[i])
                } else {
                    None
                }
            }),
    {
        let child_index = self.find_child_index(key);
        if child_index < self.children.len() {
            Some(&self.children[child_index])
        } else {
            None
        }
    }

    /// Mutable reference to the child that covers `key`, if the node has it.
    pub fn get_child_mut(&mut self, key: &K) -> (r: Option<&mut NodeRef<K, V>>)
        requires
            keys_sorted(old(self).keys@),
        ensures
            final(self).keys == old(self).keys,
            final(self).capacity == old(self).capacity,
            ({
                let i = child_pos(old(self).keys@, *key);
                if i < old(self).children@.len() {
                    &&& r is Some
                    &&& *r.unwrap() == old(self).children@[i]
                    &&& final(self).children@ == old(self).children@.update(i, *final(r.unwrap()))
                } else {
                    r is None && final(self).children == old(self).children
                }
            }),
    {
        let child_index = self.find_child_index(key);
        if child_index >= self.children.len() {
            return None;
        }
        Some(&mut self.children[child_index])
    }

    /// Insert a separator and the child to its right after child
    /// `child_index`; if the node was full, split it and return the right
    /// half with the promoted key.
    pub fn insert_child_and_split_if_needed(
        &mut self,
        child_index: usize,
        separator_key: K,
        new_child: NodeRef<K, V>,
    ) -> (r: Option<(BranchNode<K, V>, K)>)
        requires
            child_index <= old(self).keys@.len(),
            child_index < old(self).children@.len(),
            old(self).keys@.len() + 1 == old(self).children@.len(),
            old(self).keys@.len() >= old(self).capacity ==> old(self).capacity / 2 < old(
                self,
            ).keys@.len() + 1 && old(self).capacity / 2 + 1 <= old(self).children@.len() + 1,
        ensures
            final(self).capacity == old(self).capacity,
            ({
                let ks = old(self).keys@.insert(child_index as int, separator_key);
                let cs = old(self).children@.insert(child_index + 1, new_child);
                if old(self).keys@.len() >= old(self).capacity {
                    let mid = old(self).capacity / 2;
                    &&& r is Some
                    &&& final(self).keys@ == ks.subrange(0, mid as int)
                    &&& final(self).children@ == cs.subrange(0, mid + 1)
                    &&& r.unwrap().0.keys@ == ks.subrange(mid + 1, ks.len() as int)
                    &&& r.unwrap().0.children@ == cs.subrange(mid + 1, cs.len() as int)
                    &&& r.unwrap().0.capacity == old(self).capacity
                    &&& r.unwrap().1 == ks[mid as int]
                } else {
                    &&& r is None
                    &&& final(self).keys@ == ks
                    &&& final(self).children@ == cs
                }
            }),
    {
        let _n = self.children.len();
        if self.is_full() {
            self.keys.insert(child_index, separator_key);
            self.children.insert(child_index + 1, new_child);
            let (new_right, promoted_key) = self.split_data();
            Some((new_right, promoted_key))
        } else {
            self.keys.insert(child_index, separator_key);
            self.children.insert(child_index + 1, new_child);
            None
        }
    }

    /// Split around key `capacity / 2`, which is promoted; returns the right half.
    pub fn split_data(&mut self) -> (r: (BranchNode<K, V>, K))
        requires
            old(self).capacity / 2 < old(self).keys@.len(),
            old(self).capacity / 2 + 1 <= old(self).children@.len(),
        ensures
            ({
                let mid = old(self).capacity / 2;
                &&& final(self).keys@ == old(self).keys@.subrange(0, mid as int)
                &&& final(self).children@ == old(self).children@.subrange(0, mid + 1)
                &&& r.0.keys@ == old(self).keys@.subrange(mid + 1, old(self).keys@.len() as int)
                &&& r.0.children@ == old(self).children@.subrange(
                    mid + 1,
                    old(self).children@.len() as int,
                )
                &&& r.1 == old(self).keys@[mid as int]
            }),
            final(self).capacity == old(self).capacity,
            r.0.capacity == old(self).capacity,
    {
        let mid = self.min_keys();
        let promoted_key = self.keys[mid];
        let right_keys = self.keys.split_off(mid + 1);
        let right_children = self.children.split_off(mid + 1);
        self.keys.pop();
        let new_right = BranchNode { capacity: self.capacity, keys: right_keys, children: right_children };
        proof {
            assert(self.keys@ =~= old(self).keys@.subrange(0, mid as int));
        }
        (new_right, promoted_key)
    }

    /// Append the separator and all keys and children of `right`.
    pub fn merge_with_right(&mut self, right: BranchNode<K, V>, separator: K) -> (r: bool)
        ensures
            r,
            final(self).keys@ == old(self).keys@.push(separator) + right.keys@,
            final(self).children@ == old(self).children@ + right.children@,
            final(self).capacity == old(self).capacity,
    {
        let mut right = right;
        self.keys.push(separator);
        self.keys.append(&mut right.keys);
        self.children.append(&mut right.children);
        true
    }

    /// Returns true if this branch node has no keys.
    pub fn is_empty(&self) -> (r: bool)
        ensures
            r == (self.keys@.len() == 0),
    {
        self.keys.len() == 0
    }

    /// Returns true if this branch node is at capacity.
    pub fn is_full(&self) -> (r: bool)
        ensures
            r == (self.keys@.len() >= self.capacity),
    {
        self.keys.len() >= self.capacity
    }

    /// Returns true if this branch node is below minimum occupancy.
    pub fn is_underfull(&self) -> (r: bool)
        ensures
            r == (self.keys@.len() < self.capacity / 2),
    {
        self.keys.len() < self.min_keys()
    }

    /// Returns true if this branch can give a key to a sibling.
    pub fn can_donate(&self) -> (r: bool)
        ensures
            r == (self.keys@.len() > self.capacity / 2),
    {
        self.keys.len() > self.min_keys()
    }

    /// The minimum number of keys a non-root branch should have.
    pub fn min_keys(&self) -> (r: usize)
        ensures
            r == self.capacity / 2,
    {
        self.capacity / 2
    }

    /// Number of keys in this branch.
    pub fn len(&self) -> (r: usize)
        ensures
            r == self.keys@.len(),
    {
        self.keys.len()
    }

    /// Returns true if this branch holds more keys than its capacity.
    pub fn needs_split(&self) -> (r: bool)
        ensures
            r == (self.keys@.len() > self.capacity),
    {
        self.keys.len() > self.capacity
    }

    /// Give up the last key and child, if the branch can donate.
    pub fn borrow_last(&mut self) -> (r: Option<(K, NodeRef<K, V>)>)
        requires
            old(self).children@.len() == old(self).keys@.len() + 1,
        ensures
            final(self).capacity == old(self).capacity,
            old(self).keys@.len() > old(self).capacity / 2 ==> {
                &&& r == Some((old(self).keys@.last(), old(self).children@.last()))
                &&& final(self).keys@ == old(self).keys@.drop_last()
                &&& final(self).children@ == old(self).children@.drop_last()
            },
            old(self).keys@.len() <= old(self).capacity / 2 ==> r is None && *final(self) == *old(
                self,
            ),
    {
        if self.keys.len() == 0 || !self.can_donate() {
            return None;
        }
        let key = self.keys.pop().unwrap();
        let child = self.children.pop().unwrap();
        Some((key, child))
    }

    /// Give up the first key and child, if the branch can donate.
    pub fn borrow_first(&mut self) -> (r: Option<(K, NodeRef<K, V>)>)
        requires
            old(self).children@.len() == old(self).keys@.len() + 1,
        ensures
            final(self).capacity == old(self).capacity,
            old(self).keys@.len() > old(self).capacity / 2 ==> {
                &&& r == Some((old(self).keys@[0], old(self).children@[0]))
                &&& final(self).keys@ == old(self).keys@.remove(0)
                &&& final(self).children@ == old(self).children@.remove(0)
            },
            old(self).keys@.len() <= old(self).capacity / 2 ==> r is None && *final(self) == *old(
                self,
            ),
    {
        if self.keys.len() == 0 || !self.can_donate() {
            return None;
        }
        let key = self.keys.remove(0);
        let child = self.children.remove(0);
        Some((key, child))
    }

    /// Accept a child from the left sibling: the parent's separator becomes
    /// the first key, and the moved key is returned as the new separator.
    pub fn accept_from_left(&mut self, separator: K, moved_key: K, moved_child: NodeRef<K, V>) -> (r:
        K)
        ensures
            r == moved_key,
            final(self).keys@ == old(self).keys@.insert(0, separator),
            final(self).children@ == old(self).children@.insert(0, moved_child),
            final(self).capacity == old(self).capacity,
    {
        self.keys.insert(0, separator);
        self.children.insert(0, moved_child);
        moved_key
    }

    /// Accept a child from the right sibling: the parent's separator becomes
    /// the last key, and the moved key is returned as the new separator.
    pub fn accept_from_right(&mut self, separator: K, moved_key: K, moved_child: NodeRef<K, V>) -> (r:
        K)
        ensures
            r == moved_key,
            final(self).keys@ == old(self).keys@.push(separator),
            final(self).children@ == old(self).children@.push(moved_child),
            final(self).capacity == old(self).capacity,
    {
        self.keys.push(separator);
        self.children.push(moved_child);
        moved_key
    }

    /// Move the separator and all of `other` to the end of this branch.
    pub fn merge_from(&mut self, separator: K, other: &mut BranchNode<K, V>)
        ensures
            final(self).keys@ == old(self).keys@.push(separator) + old(other).keys@,
            final(self).children@ == old(self).children@ + old(other).children@,
            final(self).capacity == old(self).capacity,
            final(other).keys@ == Seq::<K>::empty(),
            final(other).children@ == Seq::<NodeRef<K, V>>::empty(),
            final(other).capacity == old(other).capacity,
    {
        self.keys.push(separator);
        self.keys.append(&mut other.keys);
        self.children.append(&mut other.children);
    }
}

} // verus!
