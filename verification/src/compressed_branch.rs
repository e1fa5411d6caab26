//! A branch node sized for a fixed budget of bytes. All its children are
//! of one kind, so it keeps their ids only. Its child slots keep what was
//! last written to them: when the count of keys drops, the slots past the
//! last child keep their old ids, and a slot never written reads as id 0.
use crate::node::{InsertResult, SplitNodeData};
use crate::types::{KeyOrder, NodeId, NodeRef, TreeKey};
use std::marker::PhantomData;
use vstd::prelude::*;

verus! {

/// Bytes a compressed branch has for its keys and child ids.
pub const BRANCH_DATA_BYTES: usize = 216;

/// Bytes of one child id.
pub const CHILD_ID_BYTES: usize = 4;

/// The kind of all children of a branch.
#[derive(Copy, Clone, Debug, PartialEq, Eq, Structural)]
pub enum ChildType {
    Leaves,
    Branches,
}

/// A branch holding its keys and the ids of its children, which are all
/// leaves or all branches.
#[derive(Debug)]
pub struct CompressedBranchNode<K, V> {
    capacity: usize,
    len: usize,
    child_type: ChildType,
    keys: Vec<K>,
    children: Vec<NodeId>,
    _phantom: PhantomData<V>,
}

/// The reference to child `id` of a branch whose children are of kind `t`.
pub open spec fn child_ref<K, V>(t: ChildType, id: NodeId) -> NodeRef<K, V> {
    match t {
        ChildType::Leaves => NodeRef::Leaf(id, PhantomData),
        ChildType::Branches => NodeRef::Branch(id, PhantomData),
    }
}

/// The id a reference names.
pub open spec fn ref_id<K, V>(r: NodeRef<K, V>) -> NodeId {
    match r {
        NodeRef::Leaf(id, _) => id,
        NodeRef::Branch(id, _) => id,
    }
}

/// Child slot `i` of branch `b` once `child` has been inserted after slot
/// `p`: the slots from `p + 1` on move one place on.
pub open spec fn slot_after_insert<K, V>(b: CompressedBranchNode<K, V>, p: int, child: NodeRef<K, V>, i: int) -> NodeId {
    if i <= p {
        b.slot(i)
    } else if i == p + 1 {
        ref_id(child)
    } else if i <= b.spec_len() + 1 {
        b.slot(i - 1)
    } else {
        b.slot(i)
    }
}

impl<K, V> CompressedBranchNode<K, V> {
    /// Number of keys.
    pub closed spec fn spec_len(&self) -> nat {
        self.len as nat
    }

    /// The most keys the branch takes without splitting.
    pub closed spec fn spec_capacity(&self) -> nat {
        self.capacity as nat
    }

    /// The kind of the children.
    pub closed spec fn spec_child_type(&self) -> ChildType {
        self.child_type
    }

    /// The keys.
    pub closed spec fn spec_keys(&self) -> Seq<K> {
        self.keys@
    }

    /// The id in child slot `i`; a slot never written reads as 0.
    pub closed spec fn slot(&self, i: int) -> NodeId {
        if 0 <= i < self.children@.len() {
            self.children@[i]
        } else {
            0
        }
    }

    /// One key per counted key, and a slot for every child.
    pub closed spec fn wf(&self) -> bool {
        &&& self.keys@.len() == self.len
        &&& self.children@.len() >= self.len + 1
    }

    /// The children: one more than the keys; none without keys.
    pub open spec fn spec_children(&self) -> Seq<NodeRef<K, V>> {
        if self.spec_len() == 0 {
            Seq::empty()
        } else {
            Seq::new(self.spec_len() + 1, |i: int| child_ref::<K, V>(self.spec_child_type(), self.slot(i)))
        }
    }
}

impl<K: TreeKey, V> CompressedBranchNode<K, V> {

    /// An empty branch for up to `capacity` keys whose children are of
    /// kind `child_type`.
    pub fn new(capacity: usize, child_type: ChildType) -> (r: Self)
        ensures
            r.wf(),
            r.spec_len() == 0,
            r.spec_capacity() == capacity,
            r.spec_child_type() == child_type,
            r.spec_keys() == Seq::<K>::empty(),
            forall|i: int| #[trigger] r.slot(i) == 0,
    {
        let r = Self { capacity, len: 0, child_type, keys: Vec::new(), children: vec![0], _phantom: PhantomData };
        proof {
            assert(r.children@ == seq![0u32]);
        }
        r
    }

    /// An empty branch whose children are leaves.
    pub fn new_leaf_parent(capacity: usize) -> (r: Self)
        ensures
            r.wf(),
            r.spec_len() == 0,
            r.spec_capacity() == capacity,
            r.spec_child_type() == ChildType::Leaves,
            r.spec_keys() == Seq::<K>::empty(),
            forall|i: int| #[trigger] r.slot(i) == 0,
    {
        Self::new(capacity, ChildType::Leaves)
    }

    /// An empty branch whose children are branches.
    pub fn new_branch_parent(capacity: usize) -> (r: Self)
        ensures
            r.wf(),
            r.spec_len() == 0,
            r.spec_capacity() == capacity,
            r.spec_child_type() == ChildType::Branches,
            r.spec_keys() == Seq::<K>::empty(),
            forall|i: int| #[trigger] r.slot(i) == 0,
    {
        Self::new(capacity, ChildType::Branches)
    }

    /// Number of keys.
    pub fn len(&self) -> (r: usize)
        ensures
            r == self.spec_len(),
    {
        self.len
    }

    /// The most keys the branch takes without splitting.
    pub fn capacity(&self) -> (r: usize)
        ensures
            r == self.spec_capacity(),
    {
        self.capacity
    }

    /// Whether the branch holds no key.
    pub fn is_empty(&self) -> (r: bool)
        ensures
            r == (self.spec_len() == 0),
    {
        self.len == 0
    }

    /// Whether the branch holds as many keys as it takes.
    pub fn is_full(&self) -> (r: bool)
        ensures
            r == (self.spec_len() >= self.spec_capacity()),
    {
        self.len >= self.capacity
    }

    /// Whether the branch has a key, and so two children.
    pub fn is_well_formed(&self) -> (r: bool)
        ensures
            r == (self.spec_len() >= 1),
    {
        self.len >= 1
    }

    /// Whether the branch has no key, which a branch of a tree never has.
    pub fn is_malformed(&self) -> (r: bool)
        ensures
            r == (self.spec_len() == 0),
    {
        self.len == 0
    }

    /// The kind of the children.
    pub fn child_type(&self) -> (r: ChildType)
        ensures
            r == self.spec_child_type(),
    {
        self.child_type
    }

    /// Whether the children are leaves.
    pub fn children_are_leaves(&self) -> (r: bool)
        ensures
            r == (self.spec_child_type() == ChildType::Leaves),
    {
        self.child_type == ChildType::Leaves
    }

    /// Whether the children are branches.
    pub fn children_are_branches(&self) -> (r: bool)
        ensures
            r == (self.spec_child_type() == ChildType::Branches),
    {
        self.child_type == ChildType::Branches
    }

    /// How many keys fit the byte budget next to one more child id than
    /// keys.
    pub fn calculate_max_capacity() -> (r: usize)
        ensures
            r == (BRANCH_DATA_BYTES - CHILD_ID_BYTES) as int / (vstd::layout::size_of::<K>() + CHILD_ID_BYTES) as int,
    {
        proof {
            broadcast use vstd::layout::layout_of_primitives;
        }
        let key_size = core::mem::size_of::<K>();
        let child_size = core::mem::size_of::<NodeId>();
        let available_space = BRANCH_DATA_BYTES;
        if available_space <= child_size {
            return 0;
        }
        match key_size.checked_add(child_size) {
            Some(pair_size) => (available_space - child_size) / pair_size,
            None => {
                proof {
                    let d = (vstd::layout::size_of::<K>() + CHILD_ID_BYTES) as int;
                    assert(0 <= (BRANCH_DATA_BYTES - CHILD_ID_BYTES) as int / d < 1) by (nonlinear_arith)
                        requires
                            d > (BRANCH_DATA_BYTES - CHILD_ID_BYTES) as int,
                            (BRANCH_DATA_BYTES - CHILD_ID_BYTES) as int >= 0;
                }
                0
            },
        }
    }

    /// The key at `index`, if there is one.
    pub fn keys_get(&self, index: usize) -> (r: Option<&K>)
        requires
            self.wf(),
        ensures
            r == (if index < self.spec_len() {
                Some(&self.spec_keys()[index as int])
            } else {
                None
            }),
    {
        if index < self.len {
            Some(&self.keys[index])
        } else {
            None
        }
    }

    /// The first key, if any.
    pub fn first_key(&self) -> (r: Option<&K>)
        requires
            self.wf(),
        ensures
            r == (if self.spec_len() > 0 {
                Some(&self.spec_keys()[0])
            } else {
                None
            }),
    {
        if self.len > 0 {
            Some(&self.keys[0])
        } else {
            None
        }
    }

    /// The last key, if any.
    pub fn last_key(&self) -> (r: Option<&K>)
        requires
            self.wf(),
        ensures
            r == (if self.spec_len() > 0 {
                Some(&self.spec_keys()[self.spec_len() - 1])
            } else {
                None
            }),
    {
        if self.len > 0 {
            Some(&self.keys[self.len - 1])
        } else {
            None
        }
    }

    /// A copy of the keys.
    pub fn keys(&self) -> (r: Vec<K>)
        requires
            self.wf(),
        ensures
            r@ == self.spec_keys(),
    {
        let mut keys: Vec<K> = Vec::with_capacity(self.len);
        let mut i: usize = 0;
        while i < self.len
            invariant
                self.wf(),
                i <= self.len,
                keys@ == self.keys@.subrange(0, i as int),
            decreases self.len - i,
        {
            keys.push(self.keys[i]);
            i += 1;
            proof {
                assert(keys@ =~= self.keys@.subrange(0, i as int));
            }
        }
        proof {
            assert(self.keys@.subrange(0, i as int) =~= self.keys@);
        }
        keys
    }

    /// An iterator over the keys.
    pub fn keys_iter(&self) -> (r: KeysIter<'_, K, V>)
        requires
            self.wf(),
        ensures
            r.spec_node() == self,
            r.spec_index() == 0,
    {
        KeysIter { node: self, index: 0, _phantom: PhantomData }
    }

    /// The first position whose key is at or above `key`, and whether that
    /// key is `key` itself.
    pub fn find_key_index(&self, key: &K) -> (r: (usize, bool))
        requires
            self.wf(),
        ensures
            r.0 <= self.spec_len(),
            forall|j: int| 0 <= j < r.0 ==> #[trigger] self.spec_keys()[j].rank() < key.rank(),
            r.0 < self.spec_len() ==> key.rank() <= self.spec_keys()[r.0 as int].rank(),
            r.1 == (r.0 < self.spec_len() && self.spec_keys()[r.0 as int] == *key),
    {
        let mut i: usize = 0;
        while i < self.len
            invariant
                self.wf(),
                i <= self.len,
                forall|j: int| 0 <= j < i ==> #[trigger] self.keys@[j].rank() < key.rank(),
            decreases self.len - i,
        {
            match key.compare_key(&self.keys[i]) {
                KeyOrder::Less => {
                    return (i, false);
                },
                KeyOrder::Equal => {
                    proof {
                        K::lemma_rank_injective(*key, self.keys@[i as int]);
                    }
                    return (i, true);
                },
                KeyOrder::Greater => {},
            }
            i += 1;
        }
        (self.len, false)
    }

    /// The child for `key`: the first whose separator is at or above it,
    /// else the last.
    pub fn find_child_index(&self, key: &K) -> (r: usize)
        requires
            self.wf(),
        ensures
            r <= self.spec_len(),
            forall|j: int| 0 <= j < r ==> #[trigger] self.spec_keys()[j].rank() < key.rank(),
            r < self.spec_len() ==> key.rank() <= self.spec_keys()[r as int].rank(),
    {
        let mut i: usize = 0;
        while i < self.len
            invariant
                self.wf(),
                i <= self.len,
                forall|j: int| 0 <= j < i ==> #[trigger] self.keys@[j].rank() < key.rank(),
            decreases self.len - i,
        {
            if !matches!(key.compare_key(&self.keys[i]), KeyOrder::Greater) {
                return i;
            }
            i += 1;
        }
        self.len
    }

    /// The id in child slot `index`.
    fn slot_at(&self, index: usize) -> (r: NodeId)
        ensures
            r == self.slot(index as int),
    {
        if index < self.children.len() {
            self.children[index]
        } else {
            0
        }
    }

    /// Write `id` into child slot `index`, growing the slots with zeros.
    fn write_slot(&mut self, index: usize, id: NodeId)
        requires
            index < usize::MAX,
        ensures
            final(self).keys == old(self).keys,
            final(self).len == old(self).len,
            final(self).capacity == old(self).capacity,
            final(self).child_type == old(self).child_type,
            final(self).children@.len() >= old(self).children@.len(),
            final(self).children@.len() > index,
            forall|i: int| #[trigger] final(self).slot(i) == (if i == index { id } else { old(self).slot(i) }),
    {
        while self.children.len() <= index
            invariant
                index < usize::MAX,
                self.keys == old(self).keys,
                self.len == old(self).len,
                self.capacity == old(self).capacity,
                self.child_type == old(self).child_type,
                self.children@.len() >= old(self).children@.len(),
                forall|i: int| #[trigger] self.slot(i) == old(self).slot(i),
            decreases index + 1 - self.children@.len(),
        {
            let ghost before = *self;
            self.children.push(0);
            proof {
                assert forall|i: int| #[trigger] self.slot(i) == old(self).slot(i) by {
                    assert(self.slot(i) == before.slot(i));
                }
            }
        }
        let ghost before = *self;
        self.children.set(index, id);
        proof {
            assert forall|i: int| #[trigger] self.slot(i) == (if i == index { id } else { old(self).slot(i) }) by {
                if i != index {
                    assert(self.slot(i) == before.slot(i));
                }
            }
        }
    }

    /// The child at `index`; none when the branch has no key.
    pub fn get_child(&self, index: usize) -> (r: Option<NodeRef<K, V>>)
        ensures
            r == (if self.spec_len() == 0 {
                None
            } else if index <= self.spec_len() {
                Some(child_ref::<K, V>(self.spec_child_type(), self.slot(index as int)))
            } else {
                None
            }),
    {
        if self.len == 0 {
            return None;
        }
        if index <= self.len {
            let node_id = self.slot_at(index);
            Some(
                match self.child_type {
                    ChildType::Leaves => NodeRef::Leaf(node_id, PhantomData),
                    ChildType::Branches => NodeRef::Branch(node_id, PhantomData),
                },
            )
        } else {
            None
        }
    }

    /// Put `child` at `index` when that is one of the child positions.
    pub fn set_child(&mut self, index: usize, child: NodeRef<K, V>)
        requires
            old(self).wf(),
        ensures
            final(self).wf(),
            final(self).spec_len() == old(self).spec_len(),
            final(self).spec_capacity() == old(self).spec_capacity(),
            final(self).spec_child_type() == old(self).spec_child_type(),
            final(self).spec_keys() == old(self).spec_keys(),
            forall|i: int| #[trigger] final(self).slot(i) == (if i == index && index <= old(self).spec_len() {
                ref_id(child)
            } else {
                old(self).slot(i)
            }),
    {
        if index <= self.len {
            let node_id = match child {
                NodeRef::Leaf(id, _) => id,
                NodeRef::Branch(id, _) => id,
            };
            self.children.set(index, node_id);
        }
    }

    /// The children in order.
    pub fn children(&self) -> (r: Vec<NodeRef<K, V>>)
        requires
            self.wf(),
        ensures
            r@ == self.spec_children(),
    {
        let mut children: Vec<NodeRef<K, V>> = Vec::new();
        let mut i: usize = 0;
        proof {
            assert(self.children@.len() == self.children.len());
        }
        while i <= self.len
            invariant
                self.wf(),
                i <= self.len + 1,
                self.len < usize::MAX,
                self.spec_len() == 0 ==> children@.len() == 0,
                self.spec_len() > 0 ==> children@ == self.spec_children().subrange(0, i as int),
            decreases self.len + 1 - i,
        {
            if let Some(child) = self.get_child(i) {
                children.push(child);
            }
            i += 1;
            proof {
                if self.spec_len() > 0 {
                    assert(children@ =~= self.spec_children().subrange(0, i as int));
                }
            }
        }
        proof {
            if self.spec_len() > 0 {
                assert(self.spec_children().subrange(0, i as int) =~= self.spec_children());
            } else {
                assert(children@ =~= self.spec_children());
            }
        }
        children
    }

    /// The first child.
    pub fn first_child(&self) -> (r: Option<NodeRef<K, V>>)
        ensures
            r == (if self.spec_len() == 0 {
                None
            } else {
                Some(child_ref::<K, V>(self.spec_child_type(), self.slot(0)))
            }),
    {
        self.get_child(0)
    }

    /// The last child.
    pub fn last_child(&self) -> (r: Option<NodeRef<K, V>>)
        ensures
            r == (if self.spec_len() == 0 {
                None
            } else {
                Some(child_ref::<K, V>(self.spec_child_type(), self.slot(self.spec_len() as int)))
            }),
    {
        self.get_child(self.len)
    }

    /// The child that covers `key`.
    pub fn find_child_for_key(&self, key: &K) -> (r: Option<NodeRef<K, V>>)
        requires
            self.wf(),
        ensures
            self.spec_len() == 0 ==> r is None,
            self.spec_len() > 0 ==> exists|i: int|
                0 <= i <= self.spec_len() && (forall|j: int| 0 <= j < i ==> #[trigger] self.spec_keys()[j].rank()
                    < key.rank()) && (i < self.spec_len() ==> key.rank() <= self.spec_keys()[i].rank()) && r == Some(
                    child_ref::<K, V>(self.spec_child_type(), self.slot(i)),
                ),
    {
        let index = self.find_child_index(key);
        self.get_child(index)
    }

    /// An iterator over the children.
    pub fn children_iter(&self) -> (r: ChildrenIter<'_, K, V>)
        requires
            self.wf(),
        ensures
            r.spec_node() == self,
            r.spec_index() == 0,
    {
        ChildrenIter { node: self, index: 0, _phantom: PhantomData }
    }
}

/// `i` is the first position of `s` whose key is at or above `k`.
pub open spec fn first_at_or_above<K: TreeKey>(s: Seq<K>, k: K, i: int) -> bool {
    &&& 0 <= i <= s.len()
    &&& forall|j: int| 0 <= j < i ==> #[trigger] s[j].rank() < k.rank()
    &&& i < s.len() ==> k.rank() <= s[i].rank()
}

/// There is one first position at or above a key.
pub proof fn lemma_first_at_or_above_unique<K: TreeKey>(s: Seq<K>, k: K, i1: int, i2: int)
    requires
        first_at_or_above(s, k, i1),
        first_at_or_above(s, k, i2),
    ensures
        i1 == i2,
{
    if i1 < i2 {
        assert(s[i1].rank() < k.rank());
    } else if i2 < i1 {
        assert(s[i2].rank() < k.rank());
    }
}

impl<K: TreeKey, V> CompressedBranchNode<K, V> {
    /// Grow the child slots with zeros to at least `n`.
    fn ensure_slots(&mut self, n: usize)
        ensures
            final(self).keys == old(self).keys,
            final(self).len == old(self).len,
            final(self).capacity == old(self).capacity,
            final(self).child_type == old(self).child_type,
            final(self).children@.len() >= n,
            final(self).children@.len() >= old(self).children@.len(),
            forall|i: int| #[trigger] final(self).slot(i) == old(self).slot(i),
    {
        while self.children.len() < n
            invariant
                self.keys == old(self).keys,
                self.len == old(self).len,
                self.capacity == old(self).capacity,
                self.child_type == old(self).child_type,
                self.children@.len() >= old(self).children@.len(),
                forall|i: int| #[trigger] self.slot(i) == old(self).slot(i),
            decreases n - self.children@.len(),
        {
            let ghost before = *self;
            self.children.push(0);
            proof {
                assert forall|i: int| #[trigger] self.slot(i) == old(self).slot(i) by {
                    assert(self.slot(i) == before.slot(i));
                }
            }
        }
    }

    /// Insert `key` at `index` and `child` right after the child at
    /// `index`, moving the later keys and children one place on.
    fn insert_at_index(&mut self, index: usize, key: K, child: NodeRef<K, V>)
        requires
            old(self).wf(),
            index <= old(self).spec_len(),
            old(self).spec_len() + 2 < usize::MAX,
        ensures
            final(self).wf(),
            final(self).spec_len() == old(self).spec_len() + 1,
            final(self).spec_capacity() == old(self).spec_capacity(),
            final(self).spec_child_type() == old(self).spec_child_type(),
            final(self).spec_keys() == old(self).spec_keys().insert(index as int, key),
            forall|i: int| #[trigger] final(self).slot(i) == (if i <= index {
                old(self).slot(i)
            } else if i == index + 1 {
                ref_id(child)
            } else if i <= old(self).spec_len() + 1 {
                old(self).slot(i - 1)
            } else {
                old(self).slot(i)
            }),
    {
        let ghost s0 = *self;
        self.keys.insert(index, key);
        self.ensure_slots(self.len + 2);
        let mut i = self.len + 1;
        while i > index + 1
            invariant
                index + 1 <= i <= s0.len + 1,
                s0.len + 2 < usize::MAX,
                self.len == s0.len,
                self.keys@ == s0.keys@.insert(index as int, key),
                self.capacity == s0.capacity,
                self.child_type == s0.child_type,
                self.children@.len() >= s0.len + 2,
                forall|j: int| #[trigger] self.slot(j) == (if i < j <= s0.len + 1 {
                    s0.slot(j - 1)
                } else {
                    s0.slot(j)
                }),
            decreases i,
        {
            let v = self.slot_at(i - 1);
            let ghost before = *self;
            self.write_slot(i, v);
            i -= 1;
        }
        let ghost s_loop = *self;
        self.len += 1;
        let ghost s1 = *self;
        self.set_child(index + 1, child);
        proof {
            assert forall|x: int| #[trigger] self.slot(x) == (if x <= index {
                s0.slot(x)
            } else if x == index + 1 {
                ref_id(child)
            } else if x <= s0.len + 1 {
                s0.slot(x - 1)
            } else {
                s0.slot(x)
            }) by {
                assert(self.slot(x) == (if x == index + 1 { ref_id(child) } else { s1.slot(x) }));
                assert(s1.slot(x) == s_loop.slot(x));
                assert(s_loop.slot(x) == (if i < x <= s0.len + 1 { s0.slot(x - 1) } else { s0.slot(x) }));
            }
        }
    }

    /// Insert `key` with the child that follows it. A present key gets the
    /// child after it replaced; a full branch takes the key and then
    /// splits at its middle key, which becomes the separator and leaves
    /// both halves.
    pub fn insert(&mut self, key: K, child: NodeRef<K, V>) -> (r: InsertResult<K, V>)
        requires
            old(self).wf(),
            old(self).spec_len() + 2 < usize::MAX,
            old(self).spec_len() > 0 || old(self).spec_capacity() > 0,
        ensures
            final(self).wf(),
            final(self).spec_capacity() == old(self).spec_capacity(),
            final(self).spec_child_type() == old(self).spec_child_type(),
            ({
                let ks = old(self).spec_keys();
                let n = old(self).spec_len();
                let p = choose|p: int| first_at_or_above(ks, key, p);
                let found = p < n && ks[p] == key;
                let ks1 = ks.insert(p, key);
                let mid: int = (n / 2) as int;
                if found {
                    &&& r == InsertResult::<K, V>::Updated(None)
                    &&& final(self).spec_len() == n
                    &&& final(self).spec_keys() == ks
                    &&& forall|i: int| #[trigger] final(self).slot(i) == (if i == p + 1 {
                        ref_id(child)
                    } else {
                        old(self).slot(i)
                    })
                } else if n < old(self).spec_capacity() {
                    &&& r == InsertResult::<K, V>::Updated(None)
                    &&& final(self).spec_len() == n + 1
                    &&& final(self).spec_keys() == ks1
                    &&& forall|i: int| #[trigger] final(self).slot(i) == slot_after_insert(*old(self), p, child, i)
                } else {
                    &&& r matches InsertResult::Split { old_value, new_node_data, separator_key }
                    &&& r->Split_old_value is None
                    &&& r->Split_new_node_data matches SplitNodeData::CompressedBranch(right)
                    &&& final(self).spec_len() == mid
                    &&& final(self).spec_keys() == ks1.subrange(0, mid)
                    &&& r->Split_new_node_data->CompressedBranch_0.wf()
                    &&& r->Split_new_node_data->CompressedBranch_0.spec_keys() == ks1.subrange(mid + 1, n as int + 1)
                    &&& r->Split_separator_key == ks1[mid]
                    &&& forall|i: int| #[trigger] final(self).slot(i) == slot_after_insert(*old(self), p, child, i)
                    &&& forall|i: int| #[trigger] r->Split_new_node_data->CompressedBranch_0.slot(i) == (if 0 <= i <= n - mid {
                        slot_after_insert(*old(self), p, child, mid + 1 + i)
                    } else {
                        0
                    })
                }
            }),
    {
        let (index, found) = self.find_key_index(&key);
        proof {
            assert(first_at_or_above(self.keys@, key, index as int)) by {
                assert forall|j: int| 0 <= j < index implies #[trigger] self.keys@[j].rank() < key.rank() by {
                    assert(self.spec_keys()[j].rank() < key.rank());
                }
            }
            lemma_first_at_or_above_unique(self.keys@, key, index as int,
                choose|p: int| first_at_or_above(self.keys@, key, p));
        }
        if found {
            self.set_child(index + 1, child);
            InsertResult::Updated(None)
        } else if !self.is_full() {
            self.insert_at_index(index, key, child);
            InsertResult::Updated(None)
        } else {
            self.insert_at_index(index, key, child);
            let separator_key = self.keys[(self.len - 1) / 2];
            let new_right = self.split();
            InsertResult::Split {
                old_value: None,
                new_node_data: SplitNodeData::CompressedBranch(new_right),
                separator_key,
            }
        }
    }

    /// Split off the keys after the middle one and their children into a
    /// new right branch; the middle key leaves both.
    pub fn split(&mut self) -> (r: CompressedBranchNode<K, V>)
        requires
            old(self).wf(),
            old(self).spec_len() >= 1,
        ensures
            ({
                let n = old(self).spec_len();
                let mid = (n - 1) / 2;
                &&& final(self).wf()
                &&& r.wf()
                &&& final(self).spec_len() == mid
                &&& final(self).spec_keys() == old(self).spec_keys().subrange(0, mid)
                &&& final(self).spec_capacity() == old(self).spec_capacity()
                &&& final(self).spec_child_type() == old(self).spec_child_type()
                &&& forall|i: int| #[trigger] final(self).slot(i) == old(self).slot(i)
                &&& r.spec_len() == n - mid - 1
                &&& r.spec_keys() == old(self).spec_keys().subrange(mid + 1, n as int)
                &&& r.spec_capacity() == old(self).spec_capacity()
                &&& r.spec_child_type() == old(self).spec_child_type()
                &&& forall|i: int| #[trigger] r.slot(i) == (if 0 <= i <= n - mid - 1 {
                    old(self).slot(mid + 1 + i)
                } else {
                    0
                })
            }),
    {
        let total_keys = self.len;
        let mid = (total_keys - 1) / 2;
        let mut new_right = CompressedBranchNode::new(self.capacity, self.child_type);
        let right_count = total_keys - mid - 1;
        let mut i = mid + 1;
        while i < total_keys
            invariant
                self.wf(),
                self.len == total_keys,
                mid + 1 <= i <= total_keys,
                new_right.keys@ == self.keys@.subrange(mid + 1, i as int),
                new_right.len == 0,
                new_right.capacity == self.capacity,
                new_right.child_type == self.child_type,
                forall|j: int| #[trigger] new_right.slot(j) == 0,
                new_right.children@.len() >= 1,
            decreases total_keys - i,
        {
            let ghost before = new_right;
            new_right.keys.push(self.keys[i]);
            i += 1;
            proof {
                assert(new_right.keys@ =~= self.keys@.subrange(mid + 1, i as int));
                assert forall|x: int| #[trigger] new_right.slot(x) == 0 by {
                    assert(new_right.children == before.children);
                    assert(before.slot(x) == 0);
                }
            }
        }
        let ghost r_loop = new_right;
        new_right.len = right_count;
        let mut j: usize = 0;
        proof {
            assert forall|x: int| #[trigger] new_right.slot(x) == (if 0 <= x < j {
                self.slot(mid + 1 + x)
            } else {
                0
            }) by {
                assert(new_right.slot(x) == r_loop.slot(x));
                assert(r_loop.slot(x) == 0);
            }
        }
        while j <= right_count
            invariant
                self.wf(),
                self.len == total_keys,
                mid + 1 + right_count == total_keys,
                j <= right_count + 1,
                new_right.keys@.len() == right_count,
                new_right.len == right_count,
                new_right.capacity == self.capacity,
                new_right.child_type == self.child_type,
                new_right.children@.len() >= j,
                new_right.children@.len() >= 1,
                new_right.keys@ == self.keys@.subrange(mid + 1, total_keys as int),
                forall|x: int| #[trigger] new_right.slot(x) == (if 0 <= x < j {
                    self.slot(mid + 1 + x)
                } else {
                    0
                }),
            decreases right_count + 1 - j,
        {
            let v = self.slot_at(mid + 1 + j);
            new_right.write_slot(j, v);
            j += 1;
        }
        self.len = mid;
        self.keys.truncate(mid);
        new_right
    }

    /// Whether the branch holds more keys than it takes.
    pub fn needs_split(&self) -> (r: bool)
        ensures
            r == (self.spec_len() > self.spec_capacity()),
    {
        self.len > self.capacity
    }

    /// Whether the branch holds fewer keys than the minimum.
    pub fn is_underfull(&self) -> (r: bool)
        requires
            self.spec_capacity() < usize::MAX,
        ensures
            r == (self.spec_len() < (self.spec_capacity() + 1) / 2),
    {
        self.len < self.min_keys()
    }

    /// Whether the branch holds more keys than the minimum and so can give
    /// one away.
    pub fn can_donate(&self) -> (r: bool)
        requires
            self.spec_capacity() < usize::MAX,
        ensures
            r == (self.spec_len() > (self.spec_capacity() + 1) / 2),
    {
        self.len > self.min_keys()
    }

    /// The fewest keys a branch should hold: half its capacity, rounded up.
    pub fn min_keys(&self) -> (r: usize)
        requires
            self.spec_capacity() < usize::MAX,
        ensures
            r == (self.spec_capacity() + 1) / 2,
    {
        (self.capacity + 1) / 2
    }

    /// Give away the last key and last child when the branch can spare
    /// them.
    pub fn borrow_last(&mut self) -> (r: Option<(K, NodeRef<K, V>)>)
        requires
            old(self).wf(),
            old(self).spec_capacity() < usize::MAX,
        ensures
            final(self).wf(),
            final(self).spec_capacity() == old(self).spec_capacity(),
            final(self).spec_child_type() == old(self).spec_child_type(),
            forall|i: int| #[trigger] final(self).slot(i) == old(self).slot(i),
            ({
                let n = old(self).spec_len();
                if n == 0 || n <= (old(self).spec_capacity() + 1) / 2 {
                    r is None && final(self).spec_len() == n && final(self).spec_keys() == old(self).spec_keys()
                } else {
                    &&& r == Some((old(self).spec_keys()[n - 1], child_ref::<K, V>(old(self).spec_child_type(), old(self).slot(n as int))))
                    &&& final(self).spec_len() == n - 1
                    &&& final(self).spec_keys() == old(self).spec_keys().drop_last()
                }
            }),
    {
        if self.is_empty() || !self.can_donate() {
            return None;
        }
        let key = self.keys[self.len - 1];
        let child = self.get_child(self.len).unwrap();
        self.len -= 1;
        self.keys.pop();
        Some((key, child))
    }

    /// Give away the first key and first child when the branch can spare
    /// them; the rest move one place to the front.
    pub fn borrow_first(&mut self) -> (r: Option<(K, NodeRef<K, V>)>)
        requires
            old(self).wf(),
            old(self).spec_capacity() < usize::MAX,
        ensures
            final(self).wf(),
            final(self).spec_capacity() == old(self).spec_capacity(),
            final(self).spec_child_type() == old(self).spec_child_type(),
            ({
                let n = old(self).spec_len();
                if n == 0 || n <= (old(self).spec_capacity() + 1) / 2 {
                    &&& r is None
                    &&& final(self).spec_len() == n
                    &&& final(self).spec_keys() == old(self).spec_keys()
                    &&& forall|i: int| #[trigger] final(self).slot(i) == old(self).slot(i)
                } else {
                    &&& r == Some((old(self).spec_keys()[0], child_ref::<K, V>(old(self).spec_child_type(), old(self).slot(0))))
                    &&& final(self).spec_len() == n - 1
                    &&& final(self).spec_keys() == old(self).spec_keys().drop_first()
                    &&& forall|i: int| #[trigger] final(self).slot(i) == (if 0 <= i < n {
                        old(self).slot(i + 1)
                    } else {
                        old(self).slot(i)
                    })
                }
            }),
    {
        if self.is_empty() || !self.can_donate() {
            return None;
        }
        let key = self.keys[0];
        let child = self.get_child(0).unwrap();
        self.keys.remove(0);
        let ghost s0 = *self;
        let mut i: usize = 0;
        while i < self.len
            invariant
                i <= s0.len,
                self.len == s0.len,
                self.keys == s0.keys,
                self.capacity == s0.capacity,
                self.child_type == s0.child_type,
                self.children@.len() == s0.children@.len(),
                s0.children@.len() >= s0.len + 1,
                forall|j: int| #[trigger] self.slot(j) == (if 0 <= j < i {
                    s0.slot(j + 1)
                } else {
                    s0.slot(j)
                }),
            decreases self.len - i,
        {
            let v = self.slot_at(i + 1);
            let ghost before = *self;
            self.children.set(i, v);
            proof {
                assert forall|j: int| #[trigger] self.slot(j) == (if 0 <= j < i + 1 {
                    s0.slot(j + 1)
                } else {
                    s0.slot(j)
                }) by {
                    if j != i {
                        assert(self.slot(j) == before.slot(j));
                    }
                }
            }
            i += 1;
        }
        let ghost s_loop = *self;
        self.len -= 1;
        proof {
            assert(self.keys@ =~= old(self).keys@.drop_first());
            assert forall|x: int| #[trigger] self.slot(x) == (if 0 <= x < s0.len {
                old(self).slot(x + 1)
            } else {
                old(self).slot(x)
            }) by {
                assert(self.slot(x) == s_loop.slot(x));
                assert(s_loop.slot(x) == (if 0 <= x < i { s0.slot(x + 1) } else { s0.slot(x) }));
            }
        }
        Some((key, child))
    }

    /// Take a key and a child from the left neighbour: they come first, and
    /// the rest move one place on.
    pub fn accept_from_left(&mut self, key: K, child: NodeRef<K, V>)
        requires
            old(self).wf(),
            old(self).spec_len() + 2 < usize::MAX,
        ensures
            final(self).wf(),
            final(self).spec_capacity() == old(self).spec_capacity(),
            final(self).spec_child_type() == old(self).spec_child_type(),
            final(self).spec_len() == old(self).spec_len() + 1,
            final(self).spec_keys() == seq![key] + old(self).spec_keys(),
            forall|i: int| #[trigger] final(self).slot(i) == (if i == 0 {
                ref_id(child)
            } else if 1 <= i <= old(self).spec_len() + 1 {
                old(self).slot(i - 1)
            } else {
                old(self).slot(i)
            }),
    {
        let ghost s0 = *self;
        self.keys.insert(0, key);
        self.ensure_slots(self.len + 2);
        let mut i = self.len + 1;
        while i > 0
            invariant
                i <= s0.len + 1,
                s0.len + 2 < usize::MAX,
                self.len == s0.len,
                self.keys@ == s0.keys@.insert(0, key),
                self.capacity == s0.capacity,
                self.child_type == s0.child_type,
                self.children@.len() >= s0.len + 2,
                forall|j: int| #[trigger] self.slot(j) == (if i < j <= s0.len + 1 {
                    s0.slot(j - 1)
                } else {
                    s0.slot(j)
                }),
            decreases i,
        {
            let v = self.slot_at(i - 1);
            self.write_slot(i, v);
            i -= 1;
        }
        let ghost s_loop = *self;
        self.set_first_child(child);
        let ghost s1 = *self;
        self.len += 1;
        proof {
            assert(self.keys@ =~= seq![key] + s0.keys@);
            assert forall|x: int| #[trigger] self.slot(x) == (if x == 0 {
                ref_id(child)
            } else if 1 <= x <= s0.len + 1 {
                s0.slot(x - 1)
            } else {
                s0.slot(x)
            }) by {
                assert(self.slot(x) == s1.slot(x));
                assert(s1.slot(x) == (if x == 0 { ref_id(child) } else { s_loop.slot(x) }));
                assert(s_loop.slot(x) == (if i < x <= s0.len + 1 { s0.slot(x - 1) } else { s0.slot(x) }));
            }
        }
    }

    /// Write `child` into the first child slot.
    fn set_first_child(&mut self, child: NodeRef<K, V>)
        requires
            old(self).keys@.len() == old(self).len + 1,
            old(self).children@.len() >= old(self).len + 2,
        ensures
            final(self).keys == old(self).keys,
            final(self).len == old(self).len,
            final(self).capacity == old(self).capacity,
            final(self).child_type == old(self).child_type,
            final(self).children@.len() == old(self).children@.len(),
            forall|i: int| #[trigger] final(self).slot(i) == (if i == 0 { ref_id(child) } else { old(self).slot(i) }),
    {
        let node_id = match child {
            NodeRef::Leaf(id, _) => id,
            NodeRef::Branch(id, _) => id,
        };
        let ghost before = *self;
        self.children.set(0, node_id);
        proof {
            assert forall|i: int| #[trigger] self.slot(i) == (if i == 0 { ref_id(child) } else { before.slot(i) }) by {
            }
        }
    }

    /// Take a key from the right neighbour: it comes last. The child is
    /// written only at a child position and `len + 1` is none before the
    /// count grows, so the new last child is what its slot held.
    pub fn accept_from_right(&mut self, key: K, _child: NodeRef<K, V>)
        requires
            old(self).wf(),
            old(self).spec_len() + 2 < usize::MAX,
        ensures
            final(self).wf(),
            final(self).spec_capacity() == old(self).spec_capacity(),
            final(self).spec_child_type() == old(self).spec_child_type(),
            final(self).spec_len() == old(self).spec_len() + 1,
            final(self).spec_keys() == old(self).spec_keys().push(key),
            forall|i: int| #[trigger] final(self).slot(i) == old(self).slot(i),
    {
        self.keys.push(key);
        self.len += 1;
        self.ensure_slots(self.len + 1);
    }
}

impl<K: TreeKey, V> CompressedBranchNode<K, V> {
    /// Append the separator and then the keys and children of `other`,
    /// which is left without keys.
    pub fn merge_from(&mut self, separator: K, other: &mut CompressedBranchNode<K, V>)
        requires
            old(self).wf(),
            old(other).wf(),
            old(self).spec_len() + old(other).spec_len() + 3 < usize::MAX,
        ensures
            final(self).wf(),
            final(other).wf(),
            final(self).spec_capacity() == old(self).spec_capacity(),
            final(self).spec_child_type() == old(self).spec_child_type(),
            final(self).spec_len() == old(self).spec_len() + 1 + old(other).spec_len(),
            final(self).spec_keys() == old(self).spec_keys().push(separator) + old(other).spec_keys(),
            forall|i: int| #[trigger] final(self).slot(i) == (if i <= old(self).spec_len() {
                old(self).slot(i)
            } else if i <= old(self).spec_len() + 1 + old(other).spec_len() {
                old(other).slot(i - old(self).spec_len() - 1)
            } else {
                old(self).slot(i)
            }),
            final(other).spec_len() == 0,
            final(other).spec_keys() == Seq::<K>::empty(),
            final(other).spec_capacity() == old(other).spec_capacity(),
            final(other).spec_child_type() == old(other).spec_child_type(),
            forall|i: int| #[trigger] final(other).slot(i) == old(other).slot(i),
    {
        let ghost s0 = *self;
        let ghost o0 = *other;
        self.keys.push(separator);
        self.len += 1;
        let mut k: usize = 0;
        while k < other.len
            invariant
                other.wf(),
                *other == o0,
                self.len == s0.len + 1,
                self.capacity == s0.capacity,
                self.child_type == s0.child_type,
                self.children == s0.children,
                k <= other.len,
                self.keys@ == s0.keys@.push(separator) + o0.keys@.subrange(0, k as int),
            decreases other.len - k,
        {
            self.keys.push(other.keys[k]);
            k += 1;
            proof {
                assert(self.keys@ =~= s0.keys@.push(separator) + o0.keys@.subrange(0, k as int));
            }
        }
        let base = self.len;
        let mut c: usize = 0;
        while c <= other.len
            invariant
                other.wf(),
                *other == o0,
                base == s0.len + 1,
                self.len == base,
                self.capacity == s0.capacity,
                self.child_type == s0.child_type,
                self.keys@ == s0.keys@.push(separator) + o0.keys@,
                c <= o0.len + 1,
                s0.len + o0.len + 3 < usize::MAX,
                self.children@.len() >= s0.children@.len(),
                c > 0 ==> self.children@.len() >= base + c,
                forall|x: int| #[trigger] self.slot(x) == (if base <= x < base + c {
                    o0.slot(x - base)
                } else {
                    s0.slot(x)
                }),
            decreases o0.len + 1 - c,
        {
            let v = other.slot_at(c);
            let ghost before = *self;
            self.write_slot(base + c, v);
            proof {
                assert forall|x: int| #[trigger] self.slot(x) == (if base <= x < base + c + 1 {
                    o0.slot(x - base)
                } else {
                    s0.slot(x)
                }) by {
                    if x != base + c {
                        assert(self.slot(x) == before.slot(x));
                    }
                }
            }
            c += 1;
        }
        let ghost s_loop = *self;
        self.len += other.len;
        other.len = 0;
        other.keys.clear();
        proof {
            assert(self.keys@ =~= s0.keys@.push(separator) + o0.keys@.subrange(0, o0.len as int));
            assert forall|x: int| #[trigger] self.slot(x) == (if x <= s0.len {
                s0.slot(x)
            } else if x <= s0.len + 1 + o0.len {
                o0.slot(x - s0.len - 1)
            } else {
                s0.slot(x)
            }) by {
                assert(self.slot(x) == s_loop.slot(x));
                assert(s_loop.slot(x) == (if base <= x < base + c { o0.slot(x - base) } else { s0.slot(x) }));
            }
        }
    }

    /// Take out all keys and children, leaving the branch without keys.
    pub fn extract_all(&mut self) -> (r: (Vec<K>, Vec<NodeRef<K, V>>))
        requires
            old(self).wf(),
        ensures
            final(self).wf(),
            r.0@ == old(self).spec_keys(),
            r.1@ == old(self).spec_children(),
            final(self).spec_len() == 0,
            final(self).spec_keys() == Seq::<K>::empty(),
            final(self).spec_capacity() == old(self).spec_capacity(),
            final(self).spec_child_type() == old(self).spec_child_type(),
            forall|i: int| #[trigger] final(self).slot(i) == old(self).slot(i),
    {
        let keys = self.keys();
        let children = self.children();
        self.len = 0;
        self.keys.clear();
        (keys, children)
    }
}

impl<K: TreeKey, V> Default for CompressedBranchNode<K, V> {
    /// An empty branch of capacity 16 whose children are leaves.
    fn default() -> (r: Self)
        ensures
            r.wf(),
            r.spec_len() == 0,
            r.spec_capacity() == 16,
            r.spec_child_type() == ChildType::Leaves,
            r.spec_keys() == Seq::<K>::empty(),
    {
        Self::new_leaf_parent(16)
    }
}

/// Iterator over the keys of a compressed branch.
pub struct KeysIter<'a, K, V> {
    node: &'a CompressedBranchNode<K, V>,
    index: usize,
    _phantom: PhantomData<(&'a K, &'a V)>,
}

impl<'a, K: TreeKey, V> KeysIter<'a, K, V> {
    /// The branch read.
    pub closed spec fn spec_node(&self) -> &'a CompressedBranchNode<K, V> {
        self.node
    }

    /// Position of the next key.
    pub closed spec fn spec_index(&self) -> nat {
        self.index as nat
    }

    /// The next key, if any.
    pub fn next(&mut self) -> (r: Option<&'a K>)
        requires
            old(self).spec_node().wf(),
        ensures
            final(self).spec_node() == old(self).spec_node(),
            old(self).spec_index() < old(self).spec_node().spec_len() ==> {
                &&& r == Some(&old(self).spec_node().spec_keys()[old(self).spec_index() as int])
                &&& final(self).spec_index() == old(self).spec_index() + 1
            },
            old(self).spec_index() >= old(self).spec_node().spec_len() ==> r is None && final(self).spec_index()
                == old(self).spec_index(),
    {
        if self.index < self.node.len {
            let key = &self.node.keys[self.index];
            self.index += 1;
            Some(key)
        } else {
            None
        }
    }

    /// The number of keys left, exactly.
    pub fn size_hint(&self) -> (r: (usize, Option<usize>))
        requires
            self.spec_index() <= self.spec_node().spec_len(),
        ensures
            r == ((self.spec_node().spec_len() - self.spec_index()) as usize, Some(
                (self.spec_node().spec_len() - self.spec_index()) as usize,
            )),
    {
        let remaining = self.node.len - self.index;
        (remaining, Some(remaining))
    }
}

/// Iterator over the children of a compressed branch.
pub struct ChildrenIter<'a, K, V> {
    node: &'a CompressedBranchNode<K, V>,
    index: usize,
    _phantom: PhantomData<(&'a K, &'a V)>,
}

impl<'a, K: TreeKey, V> ChildrenIter<'a, K, V> {
    /// The branch read.
    pub closed spec fn spec_node(&self) -> &'a CompressedBranchNode<K, V> {
        self.node
    }

    /// Position of the next child.
    pub closed spec fn spec_index(&self) -> nat {
        self.index as nat
    }

    /// The next child, if any; a branch without keys gives none, though
    /// the position still moves on.
    pub fn next(&mut self) -> (r: Option<NodeRef<K, V>>)
        requires
            old(self).spec_node().wf(),
            old(self).spec_index() < usize::MAX,
        ensures
            final(self).spec_node() == old(self).spec_node(),
            old(self).spec_index() <= old(self).spec_node().spec_len() ==> {
                &&& r == (if old(self).spec_node().spec_len() == 0 {
                    None
                } else {
                    Some(child_ref::<K, V>(old(self).spec_node().spec_child_type(), old(self).spec_node().slot(old(self).spec_index() as int)))
                })
                &&& final(self).spec_index() == old(self).spec_index() + 1
            },
            old(self).spec_index() > old(self).spec_node().spec_len() ==> r is None && final(self).spec_index()
                == old(self).spec_index(),
    {
        if self.index <= self.node.len {
            let child = self.node.get_child(self.index);
            self.index += 1;
            child
        } else {
            None
        }
    }

    /// The number of children left, exactly; none for a branch without
    /// keys.
    pub fn size_hint(&self) -> (r: (usize, Option<usize>))
        requires
            self.spec_node().spec_len() < usize::MAX,
        ensures
            ({
                let n = self.spec_node().spec_len();
                let rem: usize = if n == 0 {
                    0
                } else if self.spec_index() <= n + 1 {
                    (n + 1 - self.spec_index()) as usize
                } else {
                    0
                };
                r == (rem, Some(rem))
            }),
    {
        if self.node.is_malformed() {
            return (0, Some(0));
        }
        let remaining = (self.node.len + 1).saturating_sub(self.index);
        (remaining, Some(remaining))
    }
}

impl<K: TreeKey, V> Clone for CompressedBranchNode<K, V> {
    /// A copy with the same keys and child slots.
    fn clone(&self) -> (r: Self)
        ensures
            r.spec_len() == self.spec_len(),
            r.spec_capacity() == self.spec_capacity(),
            r.spec_child_type() == self.spec_child_type(),
            r.spec_keys() == self.spec_keys(),
            forall|i: int| #[trigger] r.slot(i) == self.slot(i),
            r.wf() == self.wf(),
    {
        let mut keys: Vec<K> = Vec::new();
        let mut i: usize = 0;
        while i < self.keys.len()
            invariant
                i <= self.keys@.len(),
                keys@ == self.keys@.subrange(0, i as int),
            decreases self.keys@.len() - i,
        {
            keys.push(self.keys[i]);
            i += 1;
            proof {
                assert(keys@ =~= self.keys@.subrange(0, i as int));
            }
        }
        let mut children: Vec<NodeId> = Vec::new();
        let mut j: usize = 0;
        while j < self.children.len()
            invariant
                j <= self.children@.len(),
                children@ == self.children@.subrange(0, j as int),
            decreases self.children@.len() - j,
        {
            children.push(self.children[j]);
            j += 1;
            proof {
                assert(children@ =~= self.children@.subrange(0, j as int));
            }
        }
        proof {
            assert(keys@ =~= self.keys@);
            assert(children@ =~= self.children@);
        }
        Self {
            capacity: self.capacity,
            len: self.len,
            child_type: self.child_type,
            keys,
            children,
            _phantom: PhantomData,
        }
    }
}

impl<K: TreeKey, V> CompressedBranchNode<K, V> {
    /// Two branches agree on key count, capacity and kind of children, on
    /// their first `len` keys and on their first `len + 1` child slots.
    pub closed spec fn same_branch(&self, other: &Self) -> bool {
        &&& self.len == other.len
        &&& self.capacity == other.capacity
        &&& self.child_type == other.child_type
        &&& self.keys@.len() >= self.len
        &&& other.keys@.len() >= other.len
        &&& self.keys@.subrange(0, self.len as int) == other.keys@.subrange(0, other.len as int)
        &&& forall|i: int| 0 <= i <= self.len ==> #[trigger] self.slot(i) == other.slot(i)
    }

    /// Whether the branches agree, key by key and child by child.
    fn eq_branch(&self, other: &Self) -> (r: bool)
        ensures
            r == self.same_branch(other),
    {
        if self.len != other.len || self.capacity != other.capacity || self.child_type != other.child_type {
            return false;
        }
        if self.keys.len() < self.len || other.keys.len() < other.len {
            return false;
        }
        let mut i: usize = 0;
        while i < self.len
            invariant
                self.len == other.len,
                self.capacity == other.capacity,
                self.child_type == other.child_type,
                self.keys@.len() >= self.len,
                other.keys@.len() >= other.len,
                i <= self.len,
                self.keys@.subrange(0, i as int) == other.keys@.subrange(0, i as int),
            decreases self.len - i,
        {
            if !matches!(self.keys[i].compare_key(&other.keys[i]), KeyOrder::Equal) {
                proof {
                    assert(self.keys@.subrange(0, self.len as int)[i as int] != other.keys@.subrange(0, other.len as int)[i as int]);
                }
                return false;
            }
            proof {
                K::lemma_rank_injective(self.keys@[i as int], other.keys@[i as int]);
                assert(self.keys@.subrange(0, i as int + 1) =~= other.keys@.subrange(0, i as int + 1));
            }
            i += 1;
        }
        let mut c: usize = 0;
        loop
            invariant
                self.len == other.len,
                self.capacity == other.capacity,
                self.child_type == other.child_type,
                self.keys@.len() >= self.len,
                other.keys@.len() >= other.len,
                self.keys@.subrange(0, self.len as int) == other.keys@.subrange(0, other.len as int),
                c <= self.len,
                forall|j: int| 0 <= j < c ==> #[trigger] self.slot(j) == other.slot(j),
            decreases self.len - c,
        {
            if self.slot_at(c) != other.slot_at(c) {
                return false;
            }
            if c == self.len {
                return true;
            }
            c += 1;
        }
    }
}

impl<K: TreeKey, V> PartialEq for CompressedBranchNode<K, V> {
    fn eq(&self, other: &Self) -> (r: bool) {
        self.eq_branch(other)
    }
}

impl<K: TreeKey, V> vstd::std_specs::cmp::PartialEqSpecImpl for CompressedBranchNode<K, V> {
    open spec fn obeys_eq_spec() -> bool {
        true
    }

    open spec fn eq_spec(&self, other: &Self) -> bool {
        self.same_branch(other)
    }
}

impl<K: TreeKey, V> Eq for CompressedBranchNode<K, V> {

}

} // verus!
