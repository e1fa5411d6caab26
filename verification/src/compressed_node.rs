//! A leaf node sized for a fixed budget of bytes: it holds at most
//! `capacity` sorted keys with their values, and the capacity that fits the
//! budget follows from the sizes of the key and value types.
use crate::sorted::{is_lower_index, keys_sorted, search_keys};
use crate::types::{NodeId, TreeKey, NULL_NODE};
use vstd::prelude::*;

verus! {

/// Bytes a compressed leaf has for its keys and values.
pub const LEAF_DATA_BYTES: usize = 248;

/// A leaf holding at most `capacity` key-value pairs in key order.
pub struct CompressedLeafNode<K, V> {
    capacity: u16,
    len: u16,
    next: NodeId,
    keys: Vec<K>,
    values: Vec<V>,
}

impl<K: TreeKey, V: Copy> CompressedLeafNode<K, V> {
    /// The keys, in order.
    pub closed spec fn spec_keys(&self) -> Seq<K> {
        self.keys@
    }

    /// The values, one per key.
    pub closed spec fn spec_values(&self) -> Seq<V> {
        self.values@
    }

    /// The most pairs the leaf takes.
    pub closed spec fn spec_capacity(&self) -> nat {
        self.capacity as nat
    }

    /// The next leaf.
    pub closed spec fn spec_next(&self) -> NodeId {
        self.next
    }

    /// One value per key, sorted keys, and the count matches them.
    pub closed spec fn wf(&self) -> bool {
        &&& self.keys@.len() == self.len
        &&& self.values@.len() == self.len
        &&& keys_sorted(self.keys@)
    }

    /// An empty leaf for up to `capacity` pairs, linked to no leaf.
    pub fn new(capacity: u16) -> (r: Self)
        ensures
            r.wf(),
            r.spec_keys() == Seq::<K>::empty(),
            r.spec_values() == Seq::<V>::empty(),
            r.spec_capacity() == capacity,
            r.spec_next() == NULL_NODE,
    {
        Self { capacity, len: 0, next: NULL_NODE, keys: Vec::new(), values: Vec::new() }
    }

    /// Number of pairs.
    pub fn len(&self) -> (r: usize)
        requires
            self.wf(),
        ensures
            r == self.spec_keys().len(),
    {
        self.len as usize
    }

    /// The most pairs the leaf takes.
    pub fn capacity(&self) -> (r: usize)
        ensures
            r == self.spec_capacity(),
    {
        self.capacity as usize
    }

    /// Whether the leaf holds no pair.
    pub fn is_empty(&self) -> (r: bool)
        requires
            self.wf(),
        ensures
            r == (self.spec_keys().len() == 0),
    {
        self.len == 0
    }

    /// Whether the leaf holds as many pairs as it takes.
    pub fn is_full(&self) -> (r: bool)
        requires
            self.wf(),
        ensures
            r == (self.spec_keys().len() >= self.spec_capacity()),
    {
        self.len >= self.capacity
    }

    /// How many pairs fit the leaf's byte budget.
    pub fn calculate_max_capacity() -> (r: u16)
        requires
            0 < vstd::layout::size_of::<K>() + vstd::layout::size_of::<V>() <= usize::MAX,
        ensures
            r == LEAF_DATA_BYTES as nat / (vstd::layout::size_of::<K>() + vstd::layout::size_of::<V>()),
    {
        let pair_size = core::mem::size_of::<K>() + core::mem::size_of::<V>();
        let available_space = LEAF_DATA_BYTES;
        (available_space / pair_size) as u16
    }

    /// Where `key` is, or where it would be inserted, and whether it is there.
    pub fn find_key_index(&self, key: &K) -> (r: (usize, bool))
        requires
            self.wf(),
        ensures
            is_lower_index(self.spec_keys(), *key, r.0 as int),
            r.1 == self.spec_keys().contains(*key),
            r.1 ==> r.0 < self.spec_keys().len() && self.spec_keys()[r.0 as int] == *key,
    {
        if self.len == 0 {
            return (0, false);
        }
        match search_keys(&self.keys, key) {
            Ok(i) => (i, true),
            Err(i) => (i, false),
        }
    }

    /// Insert `key` with `value`: replace the value of a present key and
    /// return the old one, or insert the pair in key order when there is
    /// room; a full leaf refuses a new key.
    pub fn insert(&mut self, key: K, value: V) -> (r: Result<Option<V>, &'static str>)
        requires
            old(self).wf(),
        ensures
            final(self).wf(),
            final(self).spec_capacity() == old(self).spec_capacity(),
            final(self).spec_next() == old(self).spec_next(),
            ({
                let ks = old(self).spec_keys();
                let p = choose|p: int| is_lower_index(ks, key, p);
                if ks.contains(key) {
                    &&& r == Ok::<Option<V>, &'static str>(Some(old(self).spec_values()[p]))
                    &&& final(self).spec_keys() == ks
                    &&& final(self).spec_values() == old(self).spec_values().update(p, value)
                } else if ks.len() >= old(self).spec_capacity() {
                    &&& r == Err::<Option<V>, &'static str>("Leaf is at capacity")
                    &&& final(self).spec_keys() == ks
                    &&& final(self).spec_values() == old(self).spec_values()
                } else {
                    &&& r == Ok::<Option<V>, &'static str>(None)
                    &&& final(self).spec_keys() == ks.insert(p, key)
                    &&& final(self).spec_values() == old(self).spec_values().insert(p, value)
                }
            }),
    {
        let (index, found) = self.find_key_index(&key);
        proof {
            crate::sorted::lemma_lower_index_unique(self.keys@, key, index as int,
                choose|p: int| is_lower_index(self.keys@, key, p));
        }
        if found {
            let old_value = self.values[index];
            self.values.set(index, value);
            return Ok(Some(old_value));
        }
        if self.len >= self.capacity {
            return Err("Leaf is at capacity");
        }
        let ghost ks = self.keys@;
        self.keys.insert(index, key);
        self.values.insert(index, value);
        self.len = self.len + 1;
        proof {
            let nk = self.keys@;
            assert forall|i: int, j: int| 0 <= i < j < nk.len() implies #[trigger] nk[i].rank() < #[trigger] nk[j].rank() by {
                let ii = if i < index { i } else if i == index { -1 } else { i - 1 };
                let jj = if j < index { j } else if j == index { -1 } else { j - 1 };
                if i == index {
                    assert(key.rank() <= ks[jj].rank());
                    if key.rank() == ks[jj].rank() {
                        K::lemma_rank_injective(key, ks[jj]);
                        assert(ks.contains(key));
                    }
                } else if j == index {
                    assert(ks[ii].rank() < key.rank());
                } else {
                    assert(ks[ii].rank() < ks[jj].rank());
                }
            }
        }
        Ok(None)
    }

    /// The value of `key`, if present.
    pub fn get(&self, key: &K) -> (r: Option<&V>)
        requires
            self.wf(),
        ensures
            r == (if self.spec_keys().contains(*key) {
                Some(&self.spec_values()[choose|p: int| is_lower_index(self.spec_keys(), *key, p)])
            } else {
                None
            }),
    {
        let (index, found) = self.find_key_index(key);
        proof {
            crate::sorted::lemma_lower_index_unique(self.keys@, *key, index as int,
                choose|p: int| is_lower_index(self.keys@, *key, p));
        }
        if found {
            Some(&self.values[index])
        } else {
            None
        }
    }

    /// Remove `key` and return its value, if present; the pairs after it
    /// move one place down.
    pub fn remove(&mut self, key: &K) -> (r: Option<V>)
        requires
            old(self).wf(),
        ensures
            final(self).wf(),
            final(self).spec_capacity() == old(self).spec_capacity(),
            final(self).spec_next() == old(self).spec_next(),
            ({
                let ks = old(self).spec_keys();
                let p = choose|p: int| is_lower_index(ks, *key, p);
                if ks.contains(*key) {
                    &&& r == Some(old(self).spec_values()[p])
                    &&& final(self).spec_keys() == ks.remove(p)
                    &&& final(self).spec_values() == old(self).spec_values().remove(p)
                } else {
                    &&& r is None
                    &&& final(self).spec_keys() == ks
                    &&& final(self).spec_values() == old(self).spec_values()
                }
            }),
    {
        let (index, found) = self.find_key_index(key);
        proof {
            crate::sorted::lemma_lower_index_unique(self.keys@, *key, index as int,
                choose|p: int| is_lower_index(self.keys@, *key, p));
        }
        if !found {
            return None;
        }
        let ghost ks = self.keys@;
        self.keys.remove(index);
        let value = self.values.remove(index);
        self.len = self.len - 1;
        proof {
            let nk = self.keys@;
            assert forall|i: int, j: int| 0 <= i < j < nk.len() implies #[trigger] nk[i].rank() < #[trigger] nk[j].rank() by {
                let ii = if i < index { i } else { i + 1 };
                let jj = if j < index { j } else { j + 1 };
                assert(ks[ii].rank() < ks[jj].rank());
            }
        }
        Some(value)
    }

    /// The pairs in key order, one at a time.
    pub fn iter(&self) -> (r: CompressedLeafIter<'_, K, V>)
        requires
            self.wf(),
        ensures
            r.spec_leaf() == self,
            r.spec_index() == 0,
    {
        CompressedLeafIter { node: self, index: 0 }
    }
}

/// The pairs of a compressed leaf in key order.
pub struct CompressedLeafIter<'a, K, V> {
    node: &'a CompressedLeafNode<K, V>,
    index: usize,
}

impl<'a, K: TreeKey, V: Copy> CompressedLeafIter<'a, K, V> {
    /// The leaf walked.
    pub closed spec fn spec_leaf(&self) -> &'a CompressedLeafNode<K, V> {
        self.node
    }

    /// How many pairs have been handed out.
    pub closed spec fn spec_index(&self) -> nat {
        self.index as nat
    }

    /// The next pair, if any is left.
    pub fn next(&mut self) -> (r: Option<(&'a K, &'a V)>)
        requires
            old(self).spec_leaf().wf(),
        ensures
            final(self).spec_leaf() == old(self).spec_leaf(),
            ({
                let l = old(self).spec_leaf();
                let i = old(self).spec_index() as int;
                if i < l.spec_keys().len() {
                    &&& r == Some((&l.spec_keys()[i], &l.spec_values()[i]))
                    &&& final(self).spec_index() == i + 1
                } else {
                    &&& r is None
                    &&& final(self).spec_index() == old(self).spec_index()
                }
            }),
    {
        if self.index < self.node.keys.len() {
            let i = self.index;
            self.index = self.index + 1;
            Some((&self.node.keys[i], &self.node.values[i]))
        } else {
            None
        }
    }
}

} // verus!
