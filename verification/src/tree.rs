//! The B+ tree map: construction, lookups and the arena bookkeeping.
use crate::compact_arena::CompactArena;
use crate::error::{BPlusTreeError, InitResult, KeyResult};
use crate::node::{BranchNode, LeafNode};
use crate::sorted::{child_pos, entries_map, entries_sorted, has_key, is_lower_index, keys_sorted, lemma_contains_has_key};
use crate::tree_spec::{
    child_after, child_hi, child_lo, content, lemma_locate, lemma_wf_basic, rank_in, wf_node,
    BranchView, LeafView, NodeViews,
};
use crate::types::{NodeId, NodeRef, TreeKey, DEFAULT_CAPACITY, MIN_CAPACITY, NULL_NODE};
use std::marker::PhantomData;
use vstd::prelude::*;

verus! {

/// B+ tree with a dictionary-like API. Nodes live in two arenas, one for
/// leaves and one for branches; values are kept in the leaves, which are
/// linked left to right for ordered iteration.
pub struct BPlusTreeMap<K, V> {
    /// Maximum number of keys per node.
    pub capacity: usize,
    /// The root node of the tree.
    pub root: NodeRef<K, V>,
    /// Arena storage for leaf nodes.
    pub leaf_arena: CompactArena<LeafNode<K, V>>,
    /// Arena storage for branch nodes.
    pub branch_arena: CompactArena<BranchNode<K, V>>,
    /// Number of branch levels above the leaves.
    pub height: Ghost<nat>,
}

/// What the tree logic reads of a leaf node.
pub open spec fn lview<K, V>(l: LeafNode<K, V>) -> LeafView<K, V> {
    LeafView { keys: l.keys@, values: l.values@, next: l.next }
}

/// What the tree logic reads of a branch node.
pub open spec fn bview<K, V>(b: BranchNode<K, V>) -> BranchView<K, V> {
    BranchView { keys: b.keys@, children: b.children@ }
}

/// How many keys the node `n` of the tree holds.
pub open spec fn node_keys_len<K, V>(t: BPlusTreeMap<K, V>, n: NodeRef<K, V>) -> int {
    match n {
        NodeRef::Leaf(id, _) => t.leaf_arena@[id].keys@.len() as int,
        NodeRef::Branch(id, _) => t.branch_arena@[id].keys@.len() as int,
    }
}

impl<K: TreeKey, V> BPlusTreeMap<K, V> {
    /// The tree's nodes as the tree logic sees them.
    pub open spec fn views(&self) -> NodeViews<K, V> {
        NodeViews {
            leaves: self.leaf_arena@.map_values(|l: LeafNode<K, V>| lview(l)),
            branches: self.branch_arena@.map_values(|b: BranchNode<K, V>| bview(b)),
        }
    }

    /// Height of the tree in branch levels.
    pub open spec fn spec_height(&self) -> nat {
        self.height@
    }

    /// The tree's entries in key order.
    pub open spec fn entries(&self) -> Seq<(K, V)> {
        content(self.views(), self.root, self.height@)
    }

    /// The map the tree holds.
    pub open spec fn view(&self) -> Map<K, V> {
        entries_map(self.entries())
    }

    /// Every node in an arena has the tree's capacity and holds at most
    /// that many keys.
    pub open spec fn uniform_capacity(&self) -> bool {
        &&& forall|id: NodeId| #[trigger]
            self.leaf_arena@.contains_key(id) ==> self.leaf_arena@[id].capacity == self.capacity
                && self.leaf_arena@[id].keys@.len() <= self.capacity
        &&& forall|id: NodeId| #[trigger]
            self.branch_arena@.contains_key(id) ==> self.branch_arena@[id].capacity
                == self.capacity && self.branch_arena@[id].keys@.len() <= self.capacity
    }

    /// Every node other than the root holds at least half the capacity in
    /// keys.
    pub open spec fn half_full(&self) -> bool {
        &&& forall|id: NodeId| #[trigger]
            self.leaf_arena@.contains_key(id) && NodeRef::<K, V>::Leaf(id, PhantomData) != self.root
                ==> self.leaf_arena@[id].keys@.len() >= self.capacity / 2
        &&& forall|id: NodeId| #[trigger]
            self.branch_arena@.contains_key(id) && NodeRef::<K, V>::Branch(id, PhantomData) != self.root
                ==> self.branch_arena@[id].keys@.len() >= self.capacity / 2
    }

    /// The arenas are sound and all their nodes share the tree's capacity.
    pub open spec fn arenas_ok(&self) -> bool {
        &&& self.leaf_arena.wf()
        &&& self.branch_arena.wf()
        &&& MIN_CAPACITY <= self.capacity < usize::MAX
        &&& self.uniform_capacity()
    }

    /// The tree is consistent: arenas are sound, all nodes share the
    /// capacity, and the nodes reachable from the root form a well-formed
    /// tree.
    pub open spec fn wf(&self) -> bool {
        &&& self.arenas_ok()
        &&& wf_node(self.views(), self.root, self.height@, None, None, NULL_NODE)
    }

    /// The entries of a well-formed tree are sorted by key.
    pub proof fn lemma_entries_sorted(&self)
        requires
            self.wf(),
        ensures
            entries_sorted(self.entries()),
    {
        lemma_wf_basic(self.views(), self.root, self.height@, None, None, NULL_NODE);
    }

    /// Create a B+ tree with the given node capacity, which must be at least 4.
    pub fn new(capacity: usize) -> (r: InitResult<Self>)
        requires
            capacity < usize::MAX,
        ensures
            capacity < MIN_CAPACITY ==> r is Err && r->Err_0 is InvalidCapacity,
            capacity >= MIN_CAPACITY ==> {
                &&& r is Ok
                &&& r->Ok_0.wf()
                &&& r->Ok_0.capacity == capacity
                &&& r->Ok_0.entries() == Seq::<(K, V)>::empty()
                &&& r->Ok_0.root is Leaf
                &&& r->Ok_0.height@ == 0
                &&& r->Ok_0.leaf_arena.slot_count() == 1
                &&& r->Ok_0.branch_arena.slot_count() == 0
                &&& r->Ok_0.has_room()
                &&& r->Ok_0.half_full()
                &&& r->Ok_0.check_invariants_spec()
                &&& r->Ok_0.arenas_match_tree()
            },
    {
        if capacity < MIN_CAPACITY {
            return Err(BPlusTreeError::invalid_capacity(capacity, MIN_CAPACITY));
        }
        let mut leaf_arena = CompactArena::new();
        let root_id = leaf_arena.allocate(LeafNode::new(capacity));
        let branch_arena = CompactArena::new();
        let tree = Self {
            capacity,
            root: NodeRef::Leaf(root_id, PhantomData),
            leaf_arena,
            branch_arena,
            height: Ghost(0),
        };
        proof {
            assert(tree.views().leaves.contains_key(root_id));
            assert(tree.entries() =~= Seq::<(K, V)>::empty());
        }
        Ok(tree)
    }

    /// Create a B+ tree with the default capacity.
    pub fn with_default_capacity() -> (r: InitResult<Self>)
        ensures
            r is Ok,
            r->Ok_0.wf(),
            r->Ok_0.capacity == DEFAULT_CAPACITY,
            r->Ok_0.entries() == Seq::<(K, V)>::empty(),
            r->Ok_0.root is Leaf,
            r->Ok_0.height@ == 0,
            r->Ok_0.has_room(),
            r->Ok_0.half_full(),
    {
        Self::new(DEFAULT_CAPACITY)
    }

    /// Create an empty tree with the given capacity; like `new`, it starts
    /// with one empty root leaf.
    pub fn empty(capacity: usize) -> (r: InitResult<Self>)
        requires
            capacity < usize::MAX,
        ensures
            capacity < MIN_CAPACITY ==> r is Err && r->Err_0 is InvalidCapacity,
            capacity >= MIN_CAPACITY ==> {
                &&& r is Ok
                &&& r->Ok_0.wf()
                &&& r->Ok_0.capacity == capacity
                &&& r->Ok_0.entries() == Seq::<(K, V)>::empty()
                &&& r->Ok_0.root is Leaf
                &&& r->Ok_0.height@ == 0
                &&& r->Ok_0.leaf_arena.slot_count() == 1
                &&& r->Ok_0.branch_arena.slot_count() == 0
                &&& r->Ok_0.has_room()
                &&& r->Ok_0.half_full()
                &&& r->Ok_0.check_invariants_spec()
                &&& r->Ok_0.arenas_match_tree()
            },
    {
        if capacity < MIN_CAPACITY {
            return Err(BPlusTreeError::invalid_capacity(capacity, MIN_CAPACITY));
        }
        let mut leaf_arena = CompactArena::new();
        let root_id = leaf_arena.allocate(LeafNode::new(capacity));
        let tree = Self {
            capacity,
            root: NodeRef::Leaf(root_id, PhantomData),
            leaf_arena,
            branch_arena: CompactArena::new(),
            height: Ghost(0),
        };
        proof {
            assert(tree.views().leaves.contains_key(root_id));
            assert(tree.entries() =~= Seq::<(K, V)>::empty());
        }
        Ok(tree)
    }

    /// Get a reference to a leaf node in the arena.
    pub fn get_leaf(&self, id: NodeId) -> (r: Option<&LeafNode<K, V>>)
        requires
            self.leaf_arena.wf(),
        ensures
            r == (if self.leaf_arena@.contains_key(id) {
                Some(&self.leaf_arena@[id])
            } else {
                None
            }),
    {
        self.leaf_arena.get(id)
    }

    /// Get a reference to a branch node in the arena.
    pub fn get_branch(&self, id: NodeId) -> (r: Option<&BranchNode<K, V>>)
        requires
            self.branch_arena.wf(),
        ensures
            r == (if self.branch_arena@.contains_key(id) {
                Some(&self.branch_arena@[id])
            } else {
                None
            }),
    {
        self.branch_arena.get(id)
    }

    /// Get a mutable reference to a leaf node in the arena.
    pub fn get_leaf_mut(&mut self, id: NodeId) -> (r: Option<&mut LeafNode<K, V>>)
        requires
            old(self).leaf_arena.wf(),
        ensures
            final(self).leaf_arena.wf(),
            final(self).leaf_arena.slot_count() == old(self).leaf_arena.slot_count(),
            final(self).leaf_arena.free_ids() == old(self).leaf_arena.free_ids(),
            final(self).branch_arena == old(self).branch_arena,
            final(self).root == old(self).root,
            final(self).capacity == old(self).capacity,
            final(self).height == old(self).height,
            old(self).leaf_arena@.contains_key(id) ==> {
                &&& r is Some
                &&& *r.unwrap() == old(self).leaf_arena@[id]
                &&& final(self).leaf_arena@ == old(self).leaf_arena@.insert(id, *final(r.unwrap()))
            },
            !old(self).leaf_arena@.contains_key(id) ==> r is None && final(self).leaf_arena@ == old(
                self,
            ).leaf_arena@,
    {
        self.leaf_arena.get_mut(id)
    }

    /// Get a mutable reference to a branch node in the arena.
    pub fn get_branch_mut(&mut self, id: NodeId) -> (r: Option<&mut BranchNode<K, V>>)
        requires
            old(self).branch_arena.wf(),
        ensures
            final(self).branch_arena.wf(),
            final(self).branch_arena.slot_count() == old(self).branch_arena.slot_count(),
            final(self).branch_arena.free_ids() == old(self).branch_arena.free_ids(),
            final(self).leaf_arena == old(self).leaf_arena,
            final(self).root == old(self).root,
            final(self).capacity == old(self).capacity,
            final(self).height == old(self).height,
            old(self).branch_arena@.contains_key(id) ==> {
                &&& r is Some
                &&& *r.unwrap() == old(self).branch_arena@[id]
                &&& final(self).branch_arena@ == old(self).branch_arena@.insert(id, *final(r.unwrap()))
            },
            !old(self).branch_arena@.contains_key(id) ==> r is None && final(self).branch_arena@
                == old(self).branch_arena@,
    {
        self.branch_arena.get_mut(id)
    }

    /// Allocate a new leaf node in the arena and return its ID.
    pub fn allocate_leaf(&mut self, leaf: LeafNode<K, V>) -> (id: NodeId)
        requires
            old(self).leaf_arena.wf(),
            old(self).leaf_arena.slot_count() < NULL_NODE,
        ensures
            final(self).leaf_arena.wf(),
            id != NULL_NODE,
            !old(self).leaf_arena@.contains_key(id),
            final(self).leaf_arena@ == old(self).leaf_arena@.insert(id, leaf),
            final(self).leaf_arena.slot_count() <= old(self).leaf_arena.slot_count() + 1,
            final(self).branch_arena == old(self).branch_arena,
            final(self).root == old(self).root,
            final(self).capacity == old(self).capacity,
            final(self).height == old(self).height,
    {
        self.leaf_arena.allocate(leaf)
    }

    /// Allocate a new branch node in the arena and return its ID.
    pub fn allocate_branch(&mut self, branch: BranchNode<K, V>) -> (id: NodeId)
        requires
            old(self).branch_arena.wf(),
            old(self).branch_arena.slot_count() < NULL_NODE,
        ensures
            final(self).branch_arena.wf(),
            id != NULL_NODE,
            !old(self).branch_arena@.contains_key(id),
            final(self).branch_arena@ == old(self).branch_arena@.insert(id, branch),
            final(self).branch_arena.slot_count() <= old(self).branch_arena.slot_count() + 1,
            final(self).leaf_arena == old(self).leaf_arena,
            final(self).root == old(self).root,
            final(self).capacity == old(self).capacity,
            final(self).height == old(self).height,
    {
        self.branch_arena.allocate(branch)
    }

    /// Deallocate a leaf node from the arena, returning it.
    pub fn deallocate_leaf(&mut self, id: NodeId) -> (r: Option<LeafNode<K, V>>)
        requires
            old(self).leaf_arena.wf(),
        ensures
            final(self).leaf_arena.wf(),
            final(self).leaf_arena.slot_count() == old(self).leaf_arena.slot_count(),
            final(self).leaf_arena@ == old(self).leaf_arena@.remove(id),
            r == (if old(self).leaf_arena@.contains_key(id) {
                Some(old(self).leaf_arena@[id])
            } else {
                None
            }),
            final(self).branch_arena == old(self).branch_arena,
            final(self).root == old(self).root,
            final(self).capacity == old(self).capacity,
            final(self).height == old(self).height,
    {
        let r = self.leaf_arena.deallocate(id);
        proof {
            if !old(self).leaf_arena@.contains_key(id) {
                assert(self.leaf_arena@ =~= old(self).leaf_arena@.remove(id));
            }
        }
        r
    }

    /// Deallocate a branch node from the arena, returning it.
    pub fn deallocate_branch(&mut self, id: NodeId) -> (r: Option<BranchNode<K, V>>)
        requires
            old(self).branch_arena.wf(),
        ensures
            final(self).branch_arena.wf(),
            final(self).branch_arena.slot_count() == old(self).branch_arena.slot_count(),
            final(self).branch_arena@ == old(self).branch_arena@.remove(id),
            r == (if old(self).branch_arena@.contains_key(id) {
                Some(old(self).branch_arena@[id])
            } else {
                None
            }),
            final(self).leaf_arena == old(self).leaf_arena,
            final(self).root == old(self).root,
            final(self).capacity == old(self).capacity,
            final(self).height == old(self).height,
    {
        let r = self.branch_arena.deallocate(id);
        proof {
            if !old(self).branch_arena@.contains_key(id) {
                assert(self.branch_arena@ =~= old(self).branch_arena@.remove(id));
            }
        }
        r
    }

    /// Number of free slots in the leaf arena.
    pub fn free_leaf_count(&self) -> (r: usize)
        ensures
            r == self.leaf_arena.free_ids().len(),
    {
        self.leaf_arena.free_count()
    }

    /// Number of allocated leaf nodes.
    pub fn allocated_leaf_count(&self) -> (r: usize)
        requires
            self.leaf_arena.wf(),
        ensures
            r == self.leaf_arena.slot_count() - self.leaf_arena.free_ids().len(),
    {
        self.leaf_arena.allocated_count()
    }

    /// Number of free slots in the branch arena.
    pub fn free_branch_count(&self) -> (r: usize)
        ensures
            r == self.branch_arena.free_ids().len(),
    {
        self.branch_arena.free_count()
    }

    /// Number of allocated branch nodes.
    pub fn allocated_branch_count(&self) -> (r: usize)
        requires
            self.branch_arena.wf(),
        ensures
            r == self.branch_arena.slot_count() - self.branch_arena.free_ids().len(),
    {
        self.branch_arena.allocated_count()
    }

    /// Set the next link of a leaf; false if there is no such leaf.
    pub fn set_leaf_next(&mut self, id: NodeId, next_id: NodeId) -> (r: bool)
        requires
            old(self).leaf_arena.wf(),
        ensures
            final(self).leaf_arena.wf(),
            final(self).leaf_arena.slot_count() == old(self).leaf_arena.slot_count(),
            final(self).leaf_arena.free_ids() == old(self).leaf_arena.free_ids(),
            r == old(self).leaf_arena@.contains_key(id),
            r ==> final(self).leaf_arena@ == old(self).leaf_arena@.insert(
                id,
                LeafNode { next: next_id, ..old(self).leaf_arena@[id] },
            ),
            !r ==> final(self).leaf_arena@ == old(self).leaf_arena@,
            final(self).branch_arena == old(self).branch_arena,
            final(self).root == old(self).root,
            final(self).capacity == old(self).capacity,
            final(self).height == old(self).height,
    {
        match self.get_leaf_mut(id) {
            Some(leaf) => {
                leaf.next = next_id;
                true
            },
            None => false,
        }
    }

    /// The next link of a leaf, if the leaf exists.
    pub fn get_leaf_next(&self, id: NodeId) -> (r: Option<NodeId>)
        requires
            self.leaf_arena.wf(),
        ensures
            r == (if self.leaf_arena@.contains_key(id) {
                Some(self.leaf_arena@[id].next)
            } else {
                None
            }),
    {
        match self.get_leaf(id) {
            Some(leaf) => Some(leaf.next),
            None => None,
        }
    }

    /// The index and reference of the child of a branch that covers `key`.
    pub fn get_child_for_key(&self, branch_id: NodeId, key: &K) -> (r: Option<(usize, NodeRef<K, V>)>)
        requires
            self.branch_arena.wf(),
            self.branch_arena@.contains_key(branch_id) ==> keys_sorted(
                self.branch_arena@[branch_id].keys@,
            ),
        ensures
            r == (if self.branch_arena@.contains_key(branch_id) {
                let b = self.branch_arena@[branch_id];
                let i = child_pos(b.keys@, *key);
                if i < b.children@.len() {
                    Some((i as usize, b.children@[i]))
                } else {
                    None
                }
            } else {
                None
            }),
    {
        match self.get_branch(branch_id) {
            Some(branch) => {
                let child_index = branch.find_child_index(key);
                if child_index < branch.children.len() {
                    Some((child_index, branch.children[child_index]))
                } else {
                    None
                }
            },
            None => None,
        }
    }

    /// Look a key up below `node`.
    fn get_recursive<'a>(
        &'a self,
        node: &NodeRef<K, V>,
        key: &K,
        Ghost(h): Ghost<nat>,
        Ghost(lo): Ghost<Option<int>>,
        Ghost(hi): Ghost<Option<int>>,
        Ghost(after): Ghost<NodeId>,
    ) -> (r: Option<&'a V>)
        requires
            self.leaf_arena.wf(),
            self.branch_arena.wf(),
            wf_node(self.views(), *node, h, lo, hi, after),
            rank_in(key.rank(), lo, hi),
        ensures
            r is Some ==> content(self.views(), *node, h).contains((*key, *r.unwrap())),
            r is None ==> !has_key(content(self.views(), *node, h), *key),
        decreases h,
    {
        match node {
            NodeRef::Leaf(id, _) => {
                let leaf = self.get_leaf(*id).unwrap();
                let r = leaf.get(key);
                proof {
                    let c = content(self.views(), *node, h);
                    if r is Some {
                        let i = choose|i: int|
                            0 <= i < leaf.keys@.len() && leaf.keys@[i] == *key;
                        assert(c[i] == (*key, *r.unwrap()));
                    } else if has_key(c, *key) {
                        let i = choose|i: int| 0 <= i < c.len() && #[trigger] c[i].0 == *key;
                        assert(leaf.keys@[i] == *key);
                    }
                }
                r
            },
            NodeRef::Branch(id, _) => {
                proof {
                    lemma_locate(self.views(), *node, h, lo, hi, after, *key);
                }
                let branch = self.get_branch(*id).unwrap();
                let child = branch.get_child(key).unwrap();
                let ghost i = child_pos(branch.keys@, *key);
                let ghost cs = branch.children@;
                self.get_recursive(
                    child,
                    key,
                    Ghost((h - 1) as nat),
                    Ghost(child_lo(branch.keys@, i, lo)),
                    Ghost(child_hi(branch.keys@, i, hi)),
                    Ghost(child_after(self.views(), cs, i, (h - 1) as nat, after)),
                )
            },
        }
    }

    /// A mutable reference to the value of `key` in the leaf reached by
    /// descending toward it below `node`.
    fn get_mut_recursive<'a>(
        &'a mut self,
        node: &NodeRef<K, V>,
        key: &K,
        Ghost(h): Ghost<nat>,
        Ghost(lo): Ghost<Option<int>>,
        Ghost(hi): Ghost<Option<int>>,
        Ghost(after): Ghost<NodeId>,
    ) -> (r: Option<&'a mut V>)
        requires
            old(self).arenas_ok(),
            wf_node(old(self).views(), *node, h, lo, hi, after),
            rank_in(key.rank(), lo, hi),
        ensures
            final(self).arenas_ok(),
            final(self).capacity == old(self).capacity,
            final(self).root == old(self).root,
            final(self).height == old(self).height,
            final(self).leaf_arena.slot_count() == old(self).leaf_arena.slot_count(),
            final(self).leaf_arena.free_ids() == old(self).leaf_arena.free_ids(),
            final(self).branch_arena == old(self).branch_arena,
            ({
                let ns0 = old(self).views();
                let lid = crate::range_queries::descend_leaf(ns0, *node, h, *key);
                let lv = ns0.leaves[lid];
                let p = choose|p: int| is_lower_index(lv.keys, *key, p);
                &&& r is Some <==> lv.keys.contains(*key)
                &&& r is Some ==> {
                    &&& 0 <= p < lv.keys.len()
                    &&& lv.keys[p] == *key
                    &&& *r.unwrap() == lv.values[p]
                    &&& final(self).views() == crate::tree_insert::with_value(ns0, lid, p, *final(r.unwrap()))
                }
                &&& r is None ==> final(self).views() == ns0
            }),
        decreases h,
    {
        let ghost ns0 = self.views();
        let ghost t0 = *self;
        proof {
            broadcast use {crate::global_capacity_tree::lemma_map_values_insert, crate::global_capacity_tree::lemma_map_insert_same};
            lemma_wf_basic(ns0, *node, h, lo, hi, after);
        }
        match node {
            NodeRef::Leaf(id, _) => {
                let ghost lv = ns0.leaves[*id];
                let ghost p = choose|p: int| is_lower_index(lv.keys, *key, p);
                proof {
                    assert(lv == lview(self.leaf_arena@[*id]));
                    crate::sorted::lemma_lower_index_exists(crate::tree_spec::leaf_entries(lv), *key);
                    crate::sorted::lemma_zip(lv.keys, lv.values);
                    if lv.keys.contains(*key) {
                        let i = choose|i: int| 0 <= i < lv.keys.len() && lv.keys[i] == *key;
                        assert(is_lower_index(lv.keys, *key, i)) by {
                            assert forall|j: int| 0 <= j < i implies #[trigger] lv.keys[j].rank() < key.rank() by {
                                assert(lv.keys[j].rank() < lv.keys[i].rank());
                            }
                            assert forall|j: int| i <= j < lv.keys.len() implies key.rank() <= #[trigger] lv.keys[j].rank() by {
                                if j > i {
                                    assert(lv.keys[i].rank() < lv.keys[j].rank());
                                }
                            }
                        }
                        crate::sorted::lemma_lower_index_unique(lv.keys, *key, i, p);
                    }
                    assert forall|lid: NodeId| #[trigger] t0.leaf_arena@.contains_key(lid) implies t0.leaf_arena@[lid].capacity == t0.capacity by {
                    }
                }
                match self.get_leaf_mut(*id) {
                    Some(leaf) => leaf.get_mut(key),
                    None => None,
                }
            },
            NodeRef::Branch(id, _) => {
                proof {
                    lemma_locate(ns0, *node, h, lo, hi, after, *key);
                }
                let ghost b = ns0.branches[*id];
                let ghost i = child_pos(b.keys, *key);
                let (_child_index, child_ref) = match self.get_child_for_key(*id, key) {
                    Some(info) => info,
                    None => {
                        return None;
                    },
                };
                self.get_mut_recursive(
                    &child_ref,
                    key,
                    Ghost((h - 1) as nat),
                    Ghost(child_lo(b.keys, i, lo)),
                    Ghost(child_hi(b.keys, i, hi)),
                    Ghost(child_after(ns0, b.children, i, (h - 1) as nat, after)),
                )
            },
        }
    }

    /// A mutable reference to the value of `key`, if present. Writing
    /// through it sets the key's value in the tree.
    pub fn get_mut(&mut self, key: &K) -> (r: Option<&mut V>)
        requires
            old(self).wf(),
        ensures
            r is Some <==> old(self)@.contains_key(*key),
            r is Some ==> {
                &&& *r.unwrap() == old(self)@[*key]
                &&& final(self).wf()
                &&& final(self).capacity == old(self).capacity
                &&& final(self)@ == old(self)@.insert(*key, *final(r.unwrap()))
            },
            r is None ==> final(self).wf() && final(self).entries() == old(self).entries(),
            old(self).half_full() ==> final(self).half_full(),
            old(self).arenas_match_tree() ==> final(self).arenas_match_tree(),
    {
        let ghost ns0 = self.views();
        let ghost h = self.height@;
        let ghost c0 = self.entries();
        let ghost lid = crate::range_queries::descend_leaf(ns0, self.root, h, *key);
        let ghost p = choose|p: int| is_lower_index(ns0.leaves[lid].keys, *key, p);
        proof {
            self.lemma_entries_sorted();
            crate::range_queries::lemma_descend_has_key(ns0, self.root, h, None, None, NULL_NODE, *key);
        }
        let root = self.root;
        proof {
            crate::occupancy::lemma_half_full_values_set(*old(self));
        }
        proof {
            crate::tree_counts::lemma_shape_same_branches(ns0, root, h);
        }
        let r = self.get_mut_recursive(&root, key, Ghost(h), Ghost(None), Ghost(None), Ghost(NULL_NODE));
        proof {
            if r is Some {
                let v = *final(r.unwrap());
                crate::tree_insert::lemma_value_set(ns0, root, h, None, None, NULL_NODE, *key, v, lid, p);
                crate::sorted::lemma_map_insert_entry(c0, *key, v);
                crate::sorted::lemma_map_get(c0, *key, ns0.leaves[lid].values[p]);
            }
        }
        r
    }

    /// Get a reference to the value associated with a key.
    pub fn get(&self, key: &K) -> (r: Option<&V>)
        requires
            self.wf(),
        ensures
            r is Some ==> self.entries().contains((*key, *r.unwrap())),
            r is None ==> !has_key(self.entries(), *key),
    {
        self.get_recursive(&self.root, key, Ghost(self.height@), Ghost(None), Ghost(None), Ghost(NULL_NODE))
    }

    /// Check if the key exists in the tree.
    pub fn contains_key(&self, key: &K) -> (r: bool)
        requires
            self.wf(),
        ensures
            r == has_key(self.entries(), *key),
    {
        let r = self.get(key);
        proof {
            if r is Some {
                lemma_contains_has_key(self.entries(), *key, *r.unwrap());
            }
        }
        r.is_some()
    }

    /// The value for `key`, or `default` if the key is absent.
    pub fn get_or_default<'a>(&'a self, key: &K, default: &'a V) -> (r: &'a V)
        requires
            self.wf(),
        ensures
            has_key(self.entries(), *key) ==> self.entries().contains((*key, *r)),
            !has_key(self.entries(), *key) ==> r == default,
    {
        match self.get(key) {
            Some(v) => {
                proof {
                    lemma_contains_has_key(self.entries(), *key, *v);
                }
                v
            },
            None => default,
        }
    }

    /// The value for `key`, or `KeyNotFound`.
    pub fn get_item(&self, key: &K) -> (r: KeyResult<&V>)
        requires
            self.wf(),
        ensures
            r is Ok ==> self.entries().contains((*key, *r->Ok_0)),
            r is Err ==> !has_key(self.entries(), *key) && r->Err_0 is KeyNotFound,
    {
        match self.get(key) {
            Some(v) => Ok(v),
            None => Err(BPlusTreeError::KeyNotFound),
        }
    }

    /// The value for `key`, or `KeyNotFound`.
    pub fn try_get(&self, key: &K) -> (r: KeyResult<&V>)
        requires
            self.wf(),
        ensures
            r is Ok ==> self.entries().contains((*key, *r->Ok_0)),
            r is Err ==> !has_key(self.entries(), *key) && r->Err_0 is KeyNotFound,
    {
        match self.get(key) {
            Some(v) => Ok(v),
            None => Err(BPlusTreeError::KeyNotFound),
        }
    }

    /// The values of all the keys, in order, or `KeyNotFound` if one is absent.
    pub fn get_many(&self, keys: &[K]) -> (r: Result<Vec<&V>, BPlusTreeError>)
        requires
            self.wf(),
        ensures
            r is Ok ==> {
                &&& r->Ok_0@.len() == keys@.len()
                &&& forall|i: int|
                    0 <= i < keys@.len() ==> self.entries().contains(
                        (keys@[i], *#[trigger] r->Ok_0@[i]),
                    )
            },
            r is Err ==> r->Err_0 is KeyNotFound && exists|i: int|
                0 <= i < keys@.len() && !has_key(self.entries(), #[trigger] keys@[i]),
    {
        let mut values: Vec<&V> = Vec::new();
        let mut i: usize = 0;
        while i < keys.len()
            invariant
                self.wf(),
                i <= keys@.len(),
                values@.len() == i,
                forall|j: int|
                    0 <= j < i ==> self.entries().contains((keys@[j], *#[trigger] values@[j])),
            decreases keys@.len() - i,
        {
            match self.get(&keys[i]) {
                Some(value) => values.push(value),
                None => {
                    return Err(BPlusTreeError::KeyNotFound);
                },
            }
            i = i + 1;
        }
        Ok(values)
    }
}

impl<K: TreeKey, V> Default for BPlusTreeMap<K, V> {
    fn default() -> (r: Self)
        ensures
            r.wf(),
            r.capacity == DEFAULT_CAPACITY,
            r.entries() == Seq::<(K, V)>::empty(),
            r.root is Leaf,
            r.height@ == 0,
            r.has_room(),
            r.half_full(),
    {
        Self::with_default_capacity().unwrap()
    }
}

} // verus!
