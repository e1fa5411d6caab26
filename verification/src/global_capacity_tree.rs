//! A B+ tree map whose nodes do not store their capacity: the tree holds
//! one capacity and passes it to every node operation.
use crate::compact_arena::CompactArena;
use crate::error::{BPlusTreeError, BTreeResult, InitResult};
use crate::global_capacity_nodes::{GlobalCapacityBranchNode, GlobalCapacityLeafNode};
use crate::body_lemmas::{body_insert, body_left, body_right, lemma_body_frame, lemma_body_has, lemma_body_insert_child, lemma_parts_around, lemma_split_body, split_child_ok};
use crate::flatten::{lemma_flatten_add, lemma_flatten_replace, lemma_flatten_two};
use crate::sorted::{child_pos, entries_map, entries_sorted, entry_keys, has_key, insert_entry, is_lower_index, keys_sorted, lemma_choose_lower_index, lemma_insert_entry_middle, lemma_insert_entry_sorted, lemma_zip, lemma_zip_add, lemma_zip_insert, lemma_zip_update, remove_entry, search_keys, zip_entries};
use crate::tree_insert::{insert_done, lemma_branch_child_facts, lemma_halves_in, lemma_insert_branch_grown, lemma_insert_branch_updated, lemma_insert_entry_in, lemma_keys_in_zip};
use crate::tree_spec::{
    child_after, child_hi, child_lo, children_contents, children_leaf_seq, content, in_children, in_tree, leaf_seq,
    lemma_in_tree_unfold, lemma_locate, lemma_wf_basic, lemma_wf_branch_unfold, rank_in, wf_branch, wf_branch_body,
    wf_node, keys_in, leaf_entries, BranchView, LeafView, NodeViews,
};
use crate::range_queries::{descend_leaf, lemma_descend, lemma_descend_has_key};
use crate::leaf_chain::{chain_ok, chain_entries, chain_offset, lemma_chain_index, lemma_chain_offset_ends, lemma_leaf_chain};
use crate::tree_remove::{lemma_kept_refl, lemma_remove_branch_updated, subtree_kept};
use crate::tree_insert::{lemma_value_set, old_value_ok, with_value};
use crate::types::{above_lower, below_upper, KeyBound, KeyOrder, NodeId, NodeRef, TreeKey, MIN_CAPACITY, NULL_NODE};
use std::marker::PhantomData;
use vstd::prelude::*;

verus! {

/// B+ tree map with one node capacity for the whole tree.
pub struct GlobalCapacityBPlusTreeMap<K, V> {
    capacity: usize,
    root: NodeRef<K, V>,
    leaf_arena: CompactArena<GlobalCapacityLeafNode<K, V>>,
    branch_arena: CompactArena<GlobalCapacityBranchNode<K, V>>,
    height: Ghost<nat>,
}

/// What the tree logic reads of a leaf.
pub open spec fn gc_lview<K, V>(l: GlobalCapacityLeafNode<K, V>) -> LeafView<K, V> {
    LeafView { keys: l.spec_keys(), values: l.spec_values(), next: l.spec_next() }
}

/// What the tree logic reads of a branch.
pub open spec fn gc_bview<K, V>(b: GlobalCapacityBranchNode<K, V>) -> BranchView<K, V> {
    BranchView { keys: b.spec_keys(), children: b.spec_children() }
}

impl<K: TreeKey, V> GlobalCapacityBPlusTreeMap<K, V> {
    /// The nodes of both arenas as the tree logic sees them.
    pub closed spec fn views(&self) -> NodeViews<K, V> {
        NodeViews {
            leaves: self.leaf_arena@.map_values(|l: GlobalCapacityLeafNode<K, V>| gc_lview(l)),
            branches: self.branch_arena@.map_values(|b: GlobalCapacityBranchNode<K, V>| gc_bview(b)),
        }
    }

    /// The root node.
    pub closed spec fn spec_root(&self) -> NodeRef<K, V> {
        self.root
    }

    /// Height of the tree in branch levels.
    pub closed spec fn spec_height(&self) -> nat {
        self.height@
    }

    /// The capacity of every node.
    pub closed spec fn spec_capacity(&self) -> usize {
        self.capacity
    }

    /// The entries of the tree, in key order.
    pub closed spec fn entries(&self) -> Seq<(K, V)> {
        content(self.views(), self.root, self.height@)
    }

    /// Every node in the arenas holds at most `capacity` keys.
    pub closed spec fn sizes_ok(&self) -> bool {
        &&& forall|id: NodeId| #[trigger]
            self.leaf_arena@.contains_key(id) ==> self.leaf_arena@[id].spec_keys().len() <= self.capacity
        &&& forall|id: NodeId| #[trigger]
            self.branch_arena@.contains_key(id) ==> self.branch_arena@[id].spec_keys().len() <= self.capacity
    }

    /// The arenas are sound, the capacity is at least the minimum, nodes
    /// stay within it, and the nodes reachable from the root form a
    /// well-formed tree.
    pub closed spec fn wf(&self) -> bool {
        &&& self.leaf_arena.wf()
        &&& self.branch_arena.wf()
        &&& MIN_CAPACITY <= self.capacity < usize::MAX
        &&& self.sizes_ok()
        &&& wf_node(self.views(), self.root, self.height@, None, None, NULL_NODE)
    }

    /// The entries of a well-formed tree are sorted by key.
    pub proof fn lemma_entries_sorted(&self)
        requires
            self.wf(),
        ensures
            crate::sorted::entries_sorted(self.entries()),
    {
        lemma_wf_basic(self.views(), self.root, self.height@, None, None, NULL_NODE);
    }
}

impl<K: TreeKey, V> View for GlobalCapacityBPlusTreeMap<K, V> {
    type V = Map<K, V>;

    /// The map the tree holds.
    open spec fn view(&self) -> Map<K, V> {
        entries_map(self.entries())
    }
}

impl<K: TreeKey, V> GlobalCapacityBPlusTreeMap<K, V> {
    /// A tree with one empty leaf, for a capacity of at least 4.
    pub fn new(capacity: usize) -> (r: InitResult<Self>)
        requires
            capacity < usize::MAX,
        ensures
            capacity < MIN_CAPACITY ==> r is Err && r->Err_0 is InvalidCapacity,
            capacity >= MIN_CAPACITY ==> {
                &&& r is Ok
                &&& r->Ok_0.wf()
                &&& r->Ok_0.spec_capacity() == capacity
                &&& r->Ok_0.entries() == Seq::<(K, V)>::empty()
                &&& r->Ok_0.spec_root() is Leaf
                &&& r->Ok_0.has_room()
                &&& r->Ok_0.spec_leaf_slots() == 1
                &&& r->Ok_0.spec_branch_slots() == 0
                &&& r->Ok_0.spec_height() == 0
            },
    {
        if capacity < MIN_CAPACITY {
            return Err(BPlusTreeError::invalid_capacity(capacity, MIN_CAPACITY));
        }
        let mut leaf_arena = CompactArena::new();
        let root_leaf = GlobalCapacityLeafNode::new(capacity);
        let root_id = leaf_arena.allocate(root_leaf);
        let tree = Self {
            capacity,
            root: NodeRef::Leaf(root_id, PhantomData),
            leaf_arena,
            branch_arena: CompactArena::new(),
            height: Ghost(0),
        };
        proof {
            assert(tree.views().leaves.contains_key(root_id));
            assert(tree.entries() =~= Seq::<(K, V)>::empty());
            assert(tree.sizes_ok());
        }
        Ok(tree)
    }

    /// The capacity of every node.
    pub fn capacity(&self) -> (r: usize)
        ensures
            r == self.spec_capacity(),
    {
        self.capacity
    }

    /// Number of entries below `node`.
    fn count_items(
        &self,
        node: &NodeRef<K, V>,
        Ghost(h): Ghost<nat>,
        Ghost(lo): Ghost<Option<int>>,
        Ghost(hi): Ghost<Option<int>>,
        Ghost(after): Ghost<NodeId>,
    ) -> (r: usize)
        requires
            self.leaf_arena.wf(),
            self.branch_arena.wf(),
            wf_node(self.views(), *node, h, lo, hi, after),
            content(self.views(), *node, h).len() <= usize::MAX,
        ensures
            r == content(self.views(), *node, h).len(),
        decreases h,
    {
        let ghost ns = self.views();
        match node {
            NodeRef::Leaf(id, _) => match self.leaf_arena.get(*id) {
                Some(leaf) => {
                    proof {
                        assert(ns.leaves[*id] == gc_lview(*leaf));
                    }
                    leaf.len()
                },
                None => 0,
            },
            NodeRef::Branch(id, _) => match self.branch_arena.get(*id) {
                Some(branch) => {
                    let ghost ch = (h - 1) as nat;
                    let ghost b = ns.branches[*id];
                    proof {
                        lemma_wf_branch_unfold(ns, *node, h, lo, hi, after);
                        assert(b == gc_bview(*branch));
                    }
                    let children = branch.children();
                    let mut total: usize = 0;
                    let mut i: usize = 0;
                    while i < children.len()
                        invariant
                            self.leaf_arena.wf(),
                            self.branch_arena.wf(),
                            ns == self.views(),
                            b == ns.branches[*id],
                            b.children == children@,
                            h > 0,
                            ch == (h - 1) as nat,
                            crate::tree_spec::wf_branch(ns, b, ch, lo, hi, after, *node),
                            content(ns, *node, h) == crate::tree_spec::children_contents(ns, b.children, ch).flatten(),
                            content(ns, *node, h).len() <= usize::MAX,
                            i <= children@.len(),
                            total == crate::tree_spec::children_contents(ns, b.children.subrange(0, i as int), ch).flatten().len(),
                        decreases children@.len() - i,
                    {
                        proof {
                            crate::tree_structure::lemma_prefix_step(ns, b.children, ch, i as int);
                            assert(wf_node(ns, b.children[i as int], ch, child_lo(b.keys, i as int, lo),
                                child_hi(b.keys, i as int, hi), child_after(ns, b.children, i as int, ch, after)));
                        }
                        let n = self.count_items(&children[i], Ghost(ch), Ghost(child_lo(b.keys, i as int, lo)),
                            Ghost(child_hi(b.keys, i as int, hi)), Ghost(child_after(ns, b.children, i as int, ch, after)));
                        total = total + n;
                        i = i + 1;
                    }
                    proof {
                        assert(b.children.subrange(0, i as int) =~= b.children);
                    }
                    total
                },
                None => 0,
            },
        }
    }

    /// Number of entries.
    pub fn len(&self) -> (r: usize)
        requires
            self.wf(),
            self.entries().len() <= usize::MAX,
        ensures
            r == self.entries().len(),
    {
        self.count_items(&self.root, Ghost(self.height@), Ghost(None), Ghost(None), Ghost(NULL_NODE))
    }

    /// Whether the tree holds no entry.
    pub fn is_empty(&self) -> (r: bool)
        requires
            self.wf(),
        ensures
            r == (self.entries().len() == 0),
    {
        self.first_key_value().is_none()
    }

    /// The entry with key `key` below `node`, if any.
    fn get_key_value_recursive<'a>(
        &'a self,
        node: &NodeRef<K, V>,
        key: &K,
        Ghost(h): Ghost<nat>,
        Ghost(lo): Ghost<Option<int>>,
        Ghost(hi): Ghost<Option<int>>,
        Ghost(after): Ghost<NodeId>,
    ) -> (r: Option<(&'a K, &'a V)>)
        requires
            self.leaf_arena.wf(),
            self.branch_arena.wf(),
            wf_node(self.views(), *node, h, lo, hi, after),
            rank_in(key.rank(), lo, hi),
        ensures
            r is Some ==> *r.unwrap().0 == *key && content(self.views(), *node, h).contains((*key, *r.unwrap().1)),
            r is None ==> !has_key(content(self.views(), *node, h), *key),
        decreases h,
    {
        let ghost ns = self.views();
        match node {
            NodeRef::Leaf(id, _) => {
                match self.leaf_arena.get(*id) {
                    Some(leaf) => {
                        proof {
                            assert(ns.leaves[*id] == gc_lview(*leaf));
                        }
                        match search_keys(leaf.keys(), key) {
                            Ok(pos) => {
                                let r = leaf.get_pair(pos);
                                proof {
                                    let c = content(ns, *node, h);
                                    assert(c[pos as int] == (*key, leaf.spec_values()[pos as int]));
                                }
                                r
                            },
                            Err(_) => {
                                proof {
                                    let c = content(ns, *node, h);
                                    if has_key(c, *key) {
                                        let i = choose|i: int| 0 <= i < c.len() && #[trigger] c[i].0 == *key;
                                        assert(leaf.spec_keys()[i] == *key);
                                    }
                                }
                                None
                            },
                        }
                    },
                    None => None,
                }
            },
            NodeRef::Branch(id, _) => {
                proof {
                    lemma_locate(ns, *node, h, lo, hi, after, *key);
                }
                match self.branch_arena.get(*id) {
                    Some(branch) => {
                        proof {
                            assert(ns.branches[*id] == gc_bview(*branch));
                        }
                        let child_index = branch.find_child_index(key);
                        match branch.get_child(child_index) {
                            Some(child) => {
                                let ghost i = child_index as int;
                                let ghost b = ns.branches[*id];
                                self.get_key_value_recursive(
                                    child,
                                    key,
                                    Ghost((h - 1) as nat),
                                    Ghost(child_lo(b.keys, i, lo)),
                                    Ghost(child_hi(b.keys, i, hi)),
                                    Ghost(child_after(ns, b.children, i, (h - 1) as nat, after)),
                                )
                            },
                            None => None,
                        }
                    },
                    None => None,
                }
            },
        }
    }

    /// The stored key and its value, if the key is present.
    pub fn get_key_value(&self, key: &K) -> (r: Option<(&K, &V)>)
        requires
            self.wf(),
        ensures
            r is Some ==> *r.unwrap().0 == *key && self.entries().contains((*key, *r.unwrap().1)),
            r is None ==> !has_key(self.entries(), *key),
    {
        self.get_key_value_recursive(&self.root, key, Ghost(self.height@), Ghost(None), Ghost(None), Ghost(NULL_NODE))
    }

    /// The value of `key` below `node`, if any.
    fn get_recursive<'a>(
        &'a self,
        node: &NodeRef<K, V>,
        key: &K,
        Ghost(h): Ghost<nat>,
        Ghost(lo): Ghost<Option<int>>,
        Ghost(hi): Ghost<Option<int>>,
        Ghost(after): Ghost<NodeId>,
    ) -> (r: Option<&'a V>)
        requires
            self.leaf_arena.wf(),
            self.branch_arena.wf(),
            wf_node(self.views(), *node, h, lo, hi, after),
            rank_in(key.rank(), lo, hi),
        ensures
            r is Some ==> content(self.views(), *node, h).contains((*key, *r.unwrap())),
            r is None ==> !has_key(content(self.views(), *node, h), *key),
        decreases h,
    {
        let ghost ns = self.views();
        match node {
            NodeRef::Leaf(id, _) => {
                match self.leaf_arena.get(*id) {
                    Some(leaf) => {
                        proof {
                            assert(ns.leaves[*id] == gc_lview(*leaf));
                        }
                        match search_keys(leaf.keys(), key) {
                            Ok(pos) => {
                                let values = leaf.values();
                                proof {
                                    let c = content(ns, *node, h);
                                    assert(c[pos as int] == (*key, leaf.spec_values()[pos as int]));
                                }
                                if pos < values.len() {
                                    Some(&values[pos])
                                } else {
                                    None
                                }
                            },
                            Err(_) => {
                                proof {
                                    let c = content(ns, *node, h);
                                    if has_key(c, *key) {
                                        let i = choose|i: int| 0 <= i < c.len() && #[trigger] c[i].0 == *key;
                                        assert(leaf.spec_keys()[i] == *key);
                                    }
                                }
                                None
                            },
                        }
                    },
                    None => None,
                }
            },
            NodeRef::Branch(id, _) => {
                proof {
                    lemma_locate(ns, *node, h, lo, hi, after, *key);
                }
                match self.branch_arena.get(*id) {
                    Some(branch) => {
                        proof {
                            assert(ns.branches[*id] == gc_bview(*branch));
                        }
                        let child_index = branch.find_child_index(key);
                        let children = branch.children();
                        if child_index < children.len() {
                            let ghost i = child_index as int;
                            let ghost b = ns.branches[*id];
                            self.get_recursive(
                                &children[child_index],
                                key,
                                Ghost((h - 1) as nat),
                                Ghost(child_lo(b.keys, i, lo)),
                                Ghost(child_hi(b.keys, i, hi)),
                                Ghost(child_after(ns, b.children, i, (h - 1) as nat, after)),
                            )
                        } else {
                            None
                        }
                    },
                    None => None,
                }
            },
        }
    }

    /// The value of `key`, if present.
    pub fn get(&self, key: &K) -> (r: Option<&V>)
        requires
            self.wf(),
        ensures
            r is Some ==> self.entries().contains((*key, *r.unwrap())),
            r is None ==> !has_key(self.entries(), *key),
    {
        self.get_recursive(&self.root, key, Ghost(self.height@), Ghost(None), Ghost(None), Ghost(NULL_NODE))
    }

    /// Whether `key` is present.
    pub fn contains_key(&self, key: &K) -> (r: bool)
        requires
            self.wf(),
        ensures
            r == has_key(self.entries(), *key),
    {
        let r = self.get(key);
        proof {
            if r is Some {
                let e = (*key, *r.unwrap());
                let i = choose|i: int| 0 <= i < self.entries().len() && self.entries()[i] == e;
                assert(self.entries()[i].0 == *key);
            }
        }
        r.is_some()
    }

    /// Remove every entry and start again with one empty leaf.
    pub fn clear(&mut self)
        requires
            old(self).wf(),
        ensures
            final(self).wf(),
            final(self).spec_capacity() == old(self).spec_capacity(),
            final(self).entries() == Seq::<(K, V)>::empty(),
    {
        self.leaf_arena.clear();
        self.branch_arena.clear();
        let root_leaf = GlobalCapacityLeafNode::new(self.capacity);
        let root_id = self.leaf_arena.allocate(root_leaf);
        self.root = NodeRef::Leaf(root_id, PhantomData);
        self.height = Ghost(0);
        proof {
            assert(self.views().leaves.contains_key(root_id));
            assert(self.entries() =~= Seq::<(K, V)>::empty());
            assert(self.sizes_ok());
        }
    }
}

/// Result of inserting below a node: the node took the entry, or it split
/// and the right half, already stored, goes to the parent.
pub enum InsertResult<K, V> {
    /// The node took the entry; the old value if the key was present.
    Updated(Option<V>),
    /// The node split; the parent must insert the separator and new node.
    Split { old_value: Option<V>, new_node_data: SplitNodeData<K, V>, separator_key: K },
    /// The insertion failed.
    Error(BPlusTreeError),
}

/// The stored right half of a split.
pub enum SplitNodeData<K, V> {
    Leaf(NodeRef<K, V>),
    Branch(NodeRef<K, V>),
}

/// Result of removing below a node: the removed value, and whether the
/// node is now underfull.
pub enum RemoveResult<V> {
    Updated(Option<V>, bool),
}

/// The reference to the stored right half of a split.
pub open spec fn split_ref<K, V>(d: SplitNodeData<K, V>) -> NodeRef<K, V> {
    match d {
        SplitNodeData::Leaf(r) => r,
        SplitNodeData::Branch(r) => r,
    }
}

/// After a split of `n` whose right half `rn` is already stored, both
/// halves are well-formed on either side of `sep`, hold the new entries
/// `c1` between them, and use no node of the old views outside the old
/// subtree; `rn` is new.
/// How many entries the left leaf keeps when a full leaf of capacity `cap`
/// splits at `cap / 2` and the new entry, at position `p`, then goes left
/// when `p <= cap / 2`.
pub open spec fn gc_leaf_split_len(p: int, cap: int) -> int {
    if p <= cap / 2 {
        cap / 2 + 1
    } else {
        cap / 2
    }
}

/// How a leaf `n` of capacity `cap` took `(k, v)`: an update leaves it with
/// room to spare unless the key was there; a split happens only to a full
/// leaf, which keeps the first `gc_leaf_split_len` entries and hands the
/// first key of the rest up as the separator.
pub open spec fn gc_leaf_insert_shape<K: TreeKey, V>(
    ns0: NodeViews<K, V>,
    ns1: NodeViews<K, V>,
    n: NodeRef<K, V>,
    cap: int,
    k: K,
    v: V,
    r: InsertResult<K, V>,
) -> bool {
    let c0 = content(ns0, n, 0);
    let c1 = insert_entry(c0, k, v);
    let p = choose|p: int| is_lower_index(entry_keys(c0), k, p);
    let m = gc_leaf_split_len(p, cap);
    match r {
        InsertResult::Updated(None) => c0.len() < cap,
        InsertResult::Split { separator_key, .. } => {
            &&& c0.len() == cap
            &&& content(ns1, n, 0) == c1.subrange(0, m)
            &&& separator_key == c1[m].0
        },
        _ => true,
    }
}

pub open spec fn stored_split_ok<K: TreeKey, V>(
    ns0: NodeViews<K, V>,
    ns1: NodeViews<K, V>,
    n: NodeRef<K, V>,
    h: nat,
    lo: Option<int>,
    hi: Option<int>,
    after: NodeId,
    rn: NodeRef<K, V>,
    sep: K,
    c1: Seq<(K, V)>,
) -> bool {
    &&& !ns0.has(rn)
    &&& wf_node(ns1, n, h, lo, Some(sep.rank()), leaf_seq(ns1, rn, h)[0])
    &&& wf_node(ns1, rn, h, Some(sep.rank()), hi, after)
    &&& content(ns1, n, h) + content(ns1, rn, h) == c1
    &&& leaf_seq(ns1, n, h)[0] == leaf_seq(ns0, n, h)[0]
    &&& forall|x: NodeRef<K, V>| #[trigger] in_tree(ns1, n, h, x) ==> in_tree(ns0, n, h, x) || !ns0.has(x)
    &&& forall|x: NodeRef<K, V>| #[trigger] in_tree(ns1, rn, h, x) ==> in_tree(ns0, n, h, x) || !ns0.has(x)
    &&& forall|x: NodeRef<K, V>| #[trigger] in_tree(ns1, n, h, x) ==> !in_tree(ns1, rn, h, x)
}

/// What inserting `(k, v)` below `n` achieved, from views `ns0` to `ns1`:
/// nodes outside the subtree are untouched and none is lost; either the
/// subtree took the entry, or it split with its right half stored.
pub open spec fn gc_insert_done<K: TreeKey, V>(
    ns0: NodeViews<K, V>,
    ns1: NodeViews<K, V>,
    n: NodeRef<K, V>,
    h: nat,
    lo: Option<int>,
    hi: Option<int>,
    after: NodeId,
    k: K,
    v: V,
    r: InsertResult<K, V>,
) -> bool {
    let c0 = content(ns0, n, h);
    let c1 = insert_entry(c0, k, v);
    &&& forall|x: NodeRef<K, V>| ns0.has(x) && !in_tree(ns0, n, h, x) ==> #[trigger] ns0.same_node(ns1, x)
    &&& forall|x: NodeRef<K, V>| #[trigger] ns0.has(x) ==> ns1.has(x)
    &&& match r {
        InsertResult::Updated(old) => insert_done(ns0, ns1, n, h, lo, hi, after, k, v,
            crate::node::InsertResult::<K, V>::Updated(old)),
        InsertResult::Split { old_value, new_node_data, separator_key } => {
            &&& old_value is None
            &&& !has_key(c0, k)
            &&& ns1.has(n)
            &&& rank_in(separator_key.rank(), lo, hi)
            &&& (lo matches Some(x) ==> x < separator_key.rank())
            &&& stored_split_ok(ns0, ns1, n, h, lo, hi, after, split_ref(new_node_data), separator_key, c1)
        },
        InsertResult::Error(_) => false,
    }
}

/// When the covering child of branch `n` split with its right half `rn`
/// stored, inserting the separator and `rn` after the child gives a
/// well-formed body holding the new entries.
#[verifier::spinoff_prover]
proof fn lemma_gc_child_split<K: TreeKey, V>(
    ns0: NodeViews<K, V>,
    ns1: NodeViews<K, V>,
    n: NodeRef<K, V>,
    h: nat,
    lo: Option<int>,
    hi: Option<int>,
    after: NodeId,
    k: K,
    v: V,
    d: SplitNodeData<K, V>,
    sep: K,
)
    requires
        wf_node(ns0, n, h, lo, hi, after),
        n is Branch,
        rank_in(k.rank(), lo, hi),
        ({
            let b = ns0.branches[n.spec_id()];
            let i = child_pos(b.keys, k);
            let ch = (h - 1) as nat;
            gc_insert_done(ns0, ns1, b.children[i], ch, child_lo(b.keys, i, lo), child_hi(b.keys, i, hi),
                child_after(ns0, b.children, i, ch, after), k, v,
                InsertResult::Split { old_value: None, new_node_data: d, separator_key: sep })
        }),
    ensures
        ({
            let b = ns0.branches[n.spec_id()];
            let i = child_pos(b.keys, k);
            let ch = (h - 1) as nat;
            let b2 = body_insert(b, i, sep, split_ref(d));
            &&& 0 <= i < b.children.len()
            &&& h > 0
            &&& wf_branch_body(ns1, b2, ch, lo, hi, after)
            &&& children_contents(ns1, b2.children, ch).flatten() == insert_entry(content(ns0, n, h), k, v)
            &&& children_leaf_seq(ns1, b2.children, ch).len() > 0
            &&& children_leaf_seq(ns1, b2.children, ch)[0] == leaf_seq(ns0, n, h)[0]
            &&& forall|x: NodeRef<K, V>| #[trigger] in_children(ns1, b2.children, ch, x) ==> in_children(ns0, b.children, ch, x) || !ns0.has(x)
            &&& !in_children(ns0, b.children, ch, n)
            &&& forall|x: NodeRef<K, V>| ns0.has(x) && !in_tree(ns0, n, h, x) ==> #[trigger] ns0.same_node(ns1, x)
            &&& forall|x: NodeRef<K, V>| #[trigger] ns0.has(x) ==> ns1.has(x)
            &&& ns1.branches.contains_key(n.spec_id())
            &&& ns1.branches[n.spec_id()] == b
            &&& !has_key(content(ns0, n, h), k)
            &&& forall|x: NodeRef<K, V>| #[trigger] in_tree(ns0, n, h, x) == (x == n || in_children(ns0, b.children, ch, x))
        }),
{
    let id = n.spec_id();
    let b = ns0.branches[id];
    let ch = (h - 1) as nat;
    let cs = b.children;
    let i = child_pos(b.keys, k);
    let c = cs[i];
    let rn = split_ref(d);
    lemma_branch_child_facts(ns0, n, h, lo, hi, after, k);
    lemma_parts_around(ns0, n, h, lo, hi, after, k);
    assert(!in_tree(ns0, c, ch, n)) by {
        if in_tree(ns0, c, ch, n) {
            assert(in_children(ns0, cs, ch, n));
        }
    }
    assert(ns0.same_node(ns1, n));
    assert forall|x: NodeRef<K, V>| ns0.has(x) && !in_tree(ns0, n, h, x) implies #[trigger] ns0.same_node(ns1, x) by {
        assert(!in_tree(ns0, c, ch, x));
    }
    assert forall|x: NodeRef<K, V>| in_children(ns0, cs, ch, x) && !in_tree(ns0, c, ch, x) implies #[trigger] ns0.same_node(ns1, x) by {
        assert(ns0.has(x));
    }
    assert(split_child_ok(ns0, ns1, b, ch, lo, hi, after, i, sep, rn));
    lemma_wf_branch_unfold(ns0, n, h, lo, hi, after);
    lemma_body_insert_child(ns0, ns1, b, ch, lo, hi, after, i, sep, rn);
    let b2 = body_insert(b, i, sep, rn);
    let parts0 = children_contents(ns0, cs, ch);
    let mid = seq![content(ns1, c, ch), content(ns1, rn, ch)];
    lemma_flatten_two(content(ns1, c, ch), content(ns1, rn, ch));
    lemma_flatten_replace(parts0, i, mid);
    lemma_insert_entry_middle(parts0.subrange(0, i).flatten(), parts0[i], parts0.subrange(i + 1, parts0.len() as int).flatten(), k, v);
    assert forall|x: NodeRef<K, V>| #[trigger] in_tree(ns0, n, h, x) == (x == n || in_children(ns0, cs, ch, x)) by {
        lemma_in_tree_unfold(ns0, n, h, x);
    }
}

/// The branch with the separator and new child inserted, split around key
/// `mid` into the left half in place and the right half stored at `nid`,
/// reports a split of `n`.
#[verifier::spinoff_prover]
#[verifier::rlimit(40)]
proof fn lemma_gc_branch_split<K: TreeKey, V>(
    ns0: NodeViews<K, V>,
    ns2: NodeViews<K, V>,
    ns4: NodeViews<K, V>,
    n: NodeRef<K, V>,
    h: nat,
    lo: Option<int>,
    hi: Option<int>,
    after: NodeId,
    k: K,
    v: V,
    b: BranchView<K, V>,
    b2: BranchView<K, V>,
    mid: int,
    nid: NodeId,
)
    requires
        n is Branch,
        h > 0,
        b == ns0.branches[n.spec_id()],
        ns0.has(n),
        0 < mid < b2.keys.len(),
        wf_branch_body(ns2, b2, (h - 1) as nat, lo, hi, after),
        children_contents(ns2, b2.children, (h - 1) as nat).flatten() == insert_entry(content(ns0, n, h), k, v),
        children_leaf_seq(ns2, b2.children, (h - 1) as nat).len() > 0,
        children_leaf_seq(ns2, b2.children, (h - 1) as nat)[0] == leaf_seq(ns0, n, h)[0],
        forall|x: NodeRef<K, V>| #[trigger] in_children(ns2, b2.children, (h - 1) as nat, x) ==> in_children(ns0, b.children, (h - 1) as nat, x) || !ns0.has(x),
        !in_children(ns0, b.children, (h - 1) as nat, n),
        forall|x: NodeRef<K, V>| ns0.has(x) && !in_tree(ns0, n, h, x) ==> #[trigger] ns0.same_node(ns2, x),
        forall|x: NodeRef<K, V>| #[trigger] ns0.has(x) ==> ns2.has(x),
        forall|x: NodeRef<K, V>| #[trigger] in_tree(ns0, n, h, x) == (x == n || in_children(ns0, b.children, (h - 1) as nat, x)),
        !has_key(content(ns0, n, h), k),
        ns2.branches.contains_key(n.spec_id()),
        !ns2.branches.contains_key(nid),
        ns4 == (NodeViews {
            leaves: ns2.leaves,
            branches: ns2.branches.insert(n.spec_id(), body_left(b2, mid)).insert(nid, body_right(b2, mid)),
        }),
    ensures
        gc_insert_done(ns0, ns4, n, h, lo, hi, after, k, v, InsertResult::Split {
            old_value: None,
            new_node_data: SplitNodeData::Branch(NodeRef::Branch(nid, PhantomData)),
            separator_key: b2.keys[mid],
        }),
{
    let ch = (h - 1) as nat;
    let id = n.spec_id();
    let sep = b2.keys[mid];
    let bl = body_left(b2, mid);
    let br = body_right(b2, mid);
    let rn = NodeRef::<K, V>::Branch(nid, PhantomData);
    let c1 = insert_entry(content(ns0, n, h), k, v);
    lemma_split_body(ns2, b2, ch, lo, hi, after, mid);
    lemma_body_has(ns2, b2, ch, lo, hi, after);
    assert(nid != id);
    assert(!ns0.has(rn)) by {
        if ns0.has(rn) {
            assert(ns2.has(rn));
        }
    }
    assert forall|x: NodeRef<K, V>| ns0.has(x) && !in_tree(ns0, n, h, x) implies #[trigger] ns0.same_node(ns4, x) by {
        assert(ns0.same_node(ns2, x));
        assert(x != n);
        assert(ns2.has(x));
        if x is Branch {
            assert(x.spec_id() != nid);
        }
    }
    assert forall|x: NodeRef<K, V>| #[trigger] ns0.has(x) implies ns4.has(x) by {
        assert(ns2.has(x));
    }
    assert forall|x: NodeRef<K, V>| #[trigger] in_children(ns2, b2.children, ch, x) implies ns2.same_node(ns4, x) by {
        assert(x != n);
        assert(ns2.has(x));
        if x is Branch {
            assert(x.spec_id() != nid);
        }
    }
    assert forall|x: NodeRef<K, V>| #[trigger] in_children(ns2, bl.children, ch, x) implies ns2.same_node(ns4, x) by {
        assert(in_children(ns2, b2.children, ch, x));
    }
    assert forall|x: NodeRef<K, V>| #[trigger] in_children(ns2, br.children, ch, x) implies ns2.same_node(ns4, x) by {
        assert(in_children(ns2, b2.children, ch, x));
    }
    let la = leaf_seq(ns2, b2.children[mid + 1], ch)[0];
    lemma_body_frame(ns2, ns4, bl, ch, lo, Some(sep.rank()), la);
    lemma_body_frame(ns2, ns4, br, ch, Some(sep.rank()), hi, after);
    assert(ns4.branches[nid] == br);
    assert(ns4.branches[id] == bl);
    assert(leaf_seq(ns4, rn, h) == children_leaf_seq(ns4, br.children, ch));
    assert forall|t: int| 0 <= t < bl.children.len() implies !#[trigger] in_tree(ns4, bl.children[t], ch, n) by {
        if in_tree(ns4, bl.children[t], ch, n) {
            assert(in_children(ns4, bl.children, ch, n));
            assert(in_children(ns2, b2.children, ch, n));
        }
    }
    assert forall|t: int| 0 <= t < br.children.len() implies !#[trigger] in_tree(ns4, br.children[t], ch, rn) by {
        if in_tree(ns4, br.children[t], ch, rn) {
            assert(in_children(ns4, br.children, ch, rn));
            assert(in_children(ns2, b2.children, ch, rn));
            assert(ns2.has(rn));
        }
    }
    lemma_wf_branch_unfold(ns4, n, h, lo, Some(sep.rank()), leaf_seq(ns4, rn, h)[0]);
    lemma_wf_branch_unfold(ns4, rn, h, Some(sep.rank()), hi, after);
    lemma_flatten_add(children_contents(ns2, bl.children, ch), children_contents(ns2, br.children, ch));
    assert forall|x: NodeRef<K, V>| #[trigger] in_tree(ns4, n, h, x) implies in_tree(ns0, n, h, x) || !ns0.has(x) by {
        lemma_in_tree_unfold(ns4, n, h, x);
        if x != n {
            assert(in_children(ns2, bl.children, ch, x));
            assert(in_children(ns2, b2.children, ch, x));
        }
    }
    assert forall|x: NodeRef<K, V>| #[trigger] in_tree(ns4, rn, h, x) implies in_tree(ns0, n, h, x) || !ns0.has(x) by {
        lemma_in_tree_unfold(ns4, rn, h, x);
        if x != rn {
            assert(in_children(ns2, br.children, ch, x));
            assert(in_children(ns2, b2.children, ch, x));
        }
    }
    assert forall|x: NodeRef<K, V>| #[trigger] in_tree(ns4, n, h, x) implies !in_tree(ns4, rn, h, x) by {
        lemma_in_tree_unfold(ns4, n, h, x);
        lemma_in_tree_unfold(ns4, rn, h, x);
        if x == n {
            if in_children(ns4, br.children, ch, n) {
                assert(in_children(ns2, b2.children, ch, n));
            }
        } else {
            assert(in_children(ns2, bl.children, ch, x));
            if x == rn {
                assert(ns2.has(rn));
            }
        }
    }
    assert(split_ref(SplitNodeData::Branch(rn)) == rn);
}

/// The root's two halves under a new root branch at `rid` form a
/// well-formed tree one level higher with the new entries.
#[verifier::spinoff_prover]
proof fn lemma_gc_new_root<K: TreeKey, V>(
    ns0: NodeViews<K, V>,
    ns2: NodeViews<K, V>,
    ns3: NodeViews<K, V>,
    root: NodeRef<K, V>,
    h: nat,
    rn: NodeRef<K, V>,
    sep: K,
    rid: NodeId,
    c1: Seq<(K, V)>,
)
    requires
        stored_split_ok(ns0, ns2, root, h, None, None, NULL_NODE, rn, sep, c1),
        !ns2.branches.contains_key(rid),
        ns3 == (NodeViews {
            leaves: ns2.leaves,
            branches: ns2.branches.insert(rid, BranchView { keys: seq![sep], children: seq![root, rn] }),
        }),
    ensures
        wf_node(ns3, NodeRef::<K, V>::Branch(rid, PhantomData), h + 1, None, None, NULL_NODE),
        content(ns3, NodeRef::<K, V>::Branch(rid, PhantomData), h + 1) == c1,
{
    let nr = NodeRef::<K, V>::Branch(rid, PhantomData);
    let b = BranchView { keys: seq![sep], children: seq![root, rn] };
    let s = Some(sep.rank());
    let la = leaf_seq(ns2, rn, h)[0];
    lemma_wf_basic(ns2, root, h, None, s, la);
    lemma_wf_basic(ns2, rn, h, s, None, NULL_NODE);
    assert forall|x: NodeRef<K, V>| #[trigger] in_tree(ns2, root, h, x) implies ns2.same_node(ns3, x) by {
        assert(ns2.has(x));
        if x is Branch {
            assert(x.spec_id() != rid);
        }
    }
    assert forall|x: NodeRef<K, V>| #[trigger] in_tree(ns2, rn, h, x) implies ns2.same_node(ns3, x) by {
        assert(ns2.has(x));
        if x is Branch {
            assert(x.spec_id() != rid);
        }
    }
    crate::tree_spec::lemma_frame(ns2, ns3, root, h, None, s, la);
    crate::tree_spec::lemma_frame(ns2, ns3, rn, h, s, None, NULL_NODE);
    assert(b.children[0] == root && b.children[1] == rn);
    assert(child_after(ns3, b.children, 0, h, NULL_NODE) == la);
    assert(child_after(ns3, b.children, 1, h, NULL_NODE) == NULL_NODE);
    assert(child_lo(b.keys, 0, None) == None::<int>);
    assert(child_hi(b.keys, 0, None) == s);
    assert(child_lo(b.keys, 1, None) == s);
    assert(child_hi(b.keys, 1, None) == None::<int>);
    assert forall|t: int| 0 <= t < b.children.len() implies #[trigger] wf_node(ns3, b.children[t], h,
        child_lo(b.keys, t, None), child_hi(b.keys, t, None), child_after(ns3, b.children, t, h, NULL_NODE)) by {
    }
    assert forall|i: int, j: int, x: NodeRef<K, V>| 0 <= i < j < b.children.len() && #[trigger] in_tree(ns3, b.children[i], h, x)
        implies !#[trigger] in_tree(ns3, b.children[j], h, x) by {
        assert(i == 0 && j == 1);
        assert(in_tree(ns2, root, h, x));
    }
    assert forall|t: int| 0 <= t < b.children.len() implies !#[trigger] in_tree(ns3, b.children[t], h, nr) by {
        if t == 0 {
            if in_tree(ns3, root, h, nr) {
                assert(in_tree(ns2, root, h, nr));
            }
        } else {
            if in_tree(ns3, rn, h, nr) {
                assert(in_tree(ns2, rn, h, nr));
            }
        }
    }
    assert(ns3.branches[rid] == b);
    assert(wf_branch(ns3, b, h, None, None, NULL_NODE, nr));
    lemma_wf_branch_unfold(ns3, nr, h + 1, None, None, NULL_NODE);
    crate::tree_spec::lemma_children_contents(ns3, b.children, h);
    assert(children_contents(ns3, b.children, h) =~= seq![content(ns3, root, h), content(ns3, rn, h)]);
    lemma_flatten_two(content(ns3, root, h), content(ns3, rn, h));
}

/// Splitting sorted keys at `sp` and inserting a new key into the half
/// that covers it gives two sorted halves around the old key at `sp`,
/// whose entries are the old entries with the new one.
proof fn lemma_gc_leaf_halves<K: TreeKey, V>(
    ks: Seq<K>,
    vs: Seq<V>,
    pos: int,
    k: K,
    v: V,
    sp: int,
    lk: Seq<K>,
    lv: Seq<V>,
    rk: Seq<K>,
    rv: Seq<V>,
    lo: Option<int>,
    hi: Option<int>,
)
    requires
        ks.len() == vs.len(),
        keys_sorted(ks),
        keys_in(ks, lo, hi),
        rank_in(k.rank(), lo, hi),
        is_lower_index(ks, k, pos),
        !ks.contains(k),
        1 <= sp < ks.len(),
        pos <= sp ==> lk == ks.subrange(0, sp).insert(pos, k) && lv == vs.subrange(0, sp).insert(pos, v)
            && rk == ks.subrange(sp, ks.len() as int) && rv == vs.subrange(sp, vs.len() as int),
        pos > sp ==> lk == ks.subrange(0, sp) && lv == vs.subrange(0, sp) && rk == ks.subrange(sp, ks.len() as int).insert(
            pos - sp,
            k,
        ) && rv == vs.subrange(sp, vs.len() as int).insert(pos - sp, v),
    ensures
        lk.len() == lv.len(),
        rk.len() == rv.len(),
        lk.len() > 0,
        rk.len() > 0,
        rk[0] == ks[sp],
        keys_sorted(lk),
        keys_sorted(rk),
        keys_in(lk, lo, Some(ks[sp].rank())),
        keys_in(rk, Some(ks[sp].rank()), hi),
        rank_in(ks[sp].rank(), lo, hi),
        lo matches Some(x) ==> x < ks[sp].rank(),
        zip_entries(lk, lv) + zip_entries(rk, rv) == insert_entry(zip_entries(ks, vs), k, v),
{
    let c0 = zip_entries(ks, vs);
    let ks2 = ks.insert(pos, k);
    let vs2 = vs.insert(pos, v);
    lemma_zip(ks, vs);
    assert(entry_keys(c0) == ks);
    lemma_choose_lower_index(c0, k, pos);
    assert(!(pos < c0.len() && c0[pos].0 == k)) by {
        if pos < c0.len() && c0[pos].0 == k {
            assert(ks[pos] == k);
        }
    }
    lemma_zip_insert(ks, vs, pos, k, v);
    assert(insert_entry(c0, k, v) == c0.insert(pos, (k, v)));
    assert(lk + rk =~= ks2);
    assert(lv + rv =~= vs2);
    lemma_zip_add(lk, lv, rk, rv);
    lemma_zip(ks2, vs2);
    lemma_insert_entry_sorted(c0, k, v);
    let c1 = insert_entry(c0, k, v);
    assert(c1 == zip_entries(ks2, vs2));
    lemma_keys_in_zip(ks, vs, lo, hi);
    lemma_insert_entry_in(c0, k, v, lo, hi);
    assert(rk[0] == ks[sp]);
    lemma_zip(lk, lv);
    lemma_zip(rk, rv);
    lemma_halves_in(c1, zip_entries(lk, lv), zip_entries(rk, rv), lo, hi);
    assert(zip_entries(rk, rv)[0].0 == ks[sp]);
    lemma_keys_in_zip(lk, lv, lo, Some(ks[sp].rank()));
    lemma_keys_in_zip(rk, rv, Some(ks[sp].rank()), hi);
    assert(entries_sorted(c1));
    assert forall|i: int, j: int| 0 <= i < j < lk.len() implies #[trigger] lk[i].rank() < #[trigger] lk[j].rank() by {
        assert(lk[i] == ks2[i] && lk[j] == ks2[j]);
        assert(c1[i].0.rank() < c1[j].0.rank());
    }
    assert forall|i: int, j: int| 0 <= i < j < rk.len() implies #[trigger] rk[i].rank() < #[trigger] rk[j].rank() by {
        assert(rk[i] == ks2[i + lk.len()] && rk[j] == ks2[j + lk.len()]);
        assert(c1[i + lk.len()].0.rank() < c1[j + lk.len()].0.rank());
    }
}

impl<K: TreeKey, V> GlobalCapacityBPlusTreeMap<K, V> {
    /// Insert into the leaf `leaf_id`: replace the value of a present key,
    /// insert in order when there is room, or split the full leaf at half
    /// the capacity, insert into the half that covers the key, and store the
    /// right half as the leaf's new successor.
    fn insert_into_leaf(
        &mut self,
        leaf_id: NodeId,
        key: K,
        value: V,
        Ghost(lo): Ghost<Option<int>>,
        Ghost(hi): Ghost<Option<int>>,
        Ghost(after): Ghost<NodeId>,
    ) -> (r: BTreeResult<InsertResult<K, V>>)
        requires
            old(self).leaf_arena.wf(),
            old(self).branch_arena.wf(),
            MIN_CAPACITY <= old(self).capacity < usize::MAX,
            old(self).sizes_ok(),
            wf_node(old(self).views(), NodeRef::Leaf(leaf_id, PhantomData), 0, lo, hi, after),
            rank_in(key.rank(), lo, hi),
            old(self).leaf_arena.slot_count() < NULL_NODE,
        ensures
            final(self).leaf_arena.wf(),
            final(self).branch_arena == old(self).branch_arena,
            final(self).capacity == old(self).capacity,
            final(self).root == old(self).root,
            final(self).height == old(self).height,
            final(self).sizes_ok(),
            final(self).leaf_arena.slot_count() <= old(self).leaf_arena.slot_count() + 1,
            r is Ok,
            gc_insert_done(old(self).views(), final(self).views(), NodeRef::Leaf(leaf_id, PhantomData), 0, lo, hi,
                after, key, value, r->Ok_0),
            gc_leaf_insert_shape(old(self).views(), final(self).views(), NodeRef::Leaf(leaf_id, PhantomData),
                old(self).capacity as int, key, value, r->Ok_0),
    {
        let ghost ns0 = self.views();
        let ghost n = NodeRef::<K, V>::Leaf(leaf_id, PhantomData);
        let ghost old_self = *self;
        let ghost l0 = self.leaf_arena@[leaf_id];
        let ghost ks = l0.spec_keys();
        let ghost vs = l0.spec_values();
        let ghost c0 = zip_entries(ks, vs);
        proof {
            assert(ns0.leaves[leaf_id] == gc_lview(l0));
            lemma_zip(ks, vs);
            lemma_keys_in_zip(ks, vs, lo, hi);
            assert(content(ns0, n, 0) == c0);
            assert(forall|x: NodeRef<K, V>| #[trigger] in_tree(ns0, n, 0, x) == (x == n));
        }
        let capacity = self.capacity;
        let (pos, needs_split) = match self.leaf_arena.get_mut(leaf_id) {
            Some(leaf) => {
                let pos = leaf.find_insert_position(&key);
                if pos < leaf.len() && matches!(leaf.keys()[pos].compare_key(&key), KeyOrder::Equal) {
                    let ghost new_value = value;
                    let mut value = value;
                    let values = leaf.values_mut();
                    std::mem::swap(&mut values[pos], &mut value);
                    proof {
                        K::lemma_rank_injective(ks[pos as int], key);
                        assert(ks[pos as int] == key);
                        lemma_zip_update(ks, vs, pos as int, new_value);
                        lemma_choose_lower_index(c0, key, pos as int);
                        assert(entry_keys(c0) == ks);
                        assert(c0[pos as int] == (key, value));
                    }
                    let r = InsertResult::Updated(Some(value));
                    proof {
                        let ns1 = self.views();
                        let nl = self.leaf_arena@[leaf_id];
                        assert(nl.spec_keys() == ks);
                        assert(nl.spec_values() == vs.update(pos as int, new_value));
                        assert(ns1.leaves =~= ns0.leaves.insert(leaf_id, gc_lview(nl)));
                        assert(ns1.branches =~= ns0.branches);
                        lemma_zip(nl.spec_keys(), nl.spec_values());
                        lemma_insert_entry_sorted(c0, key, new_value);
                        assert(content(ns1, n, 0) == insert_entry(c0, key, new_value));
                        assert(forall|x: NodeRef<K, V>| #[trigger] in_tree(ns1, n, 0, x) == (x == n));
                        assert forall|x: NodeRef<K, V>| ns0.has(x) && !in_tree(ns0, n, 0, x) implies #[trigger] ns0.same_node(ns1, x) by {
                            if x is Leaf {
                                assert(x.spec_id() != leaf_id);
                            }
                        }
                        assert(c0.contains((key, value)));
                        assert forall|id: NodeId| #[trigger] self.leaf_arena@.contains_key(id) implies self.leaf_arena@[id].spec_keys().len() <= self.capacity by {
                            if id != leaf_id {
                                assert(old_self.leaf_arena@.contains_key(id));
                            }
                        }
                    }
                    return Ok(r);
                }
                let needs_split = leaf.is_full(capacity);
                (pos, needs_split)
            },
            None => {
                return Err(BPlusTreeError::ArenaError(String::from_str("Leaf node not found")));
            },
        };
        proof {
            assert(self.leaf_arena@ == old_self.leaf_arena@);
            assert(!ks.contains(key)) by {
                if ks.contains(key) {
                    let j = choose|j: int| 0 <= j < ks.len() && ks[j] == key;
                    if j < pos {
                        assert(ks[j].rank() < key.rank());
                    } else if j > pos {
                        assert(key.rank() <= ks[pos as int].rank());
                        assert(ks[pos as int].rank() < ks[j].rank());
                    } else {
                        assert(ks[pos as int] == key);
                    }
                }
            }
            assert(!has_key(c0, key)) by {
                if has_key(c0, key) {
                    let j = choose|j: int| 0 <= j < c0.len() && #[trigger] c0[j].0 == key;
                    assert(ks[j] == key);
                }
            }
        }
        if needs_split {
            let split_pos = capacity / 2;
            let (right_leaf, separator_key) = match self.leaf_arena.get_mut(leaf_id) {
                Some(leaf) => {
                    let mut right_leaf = leaf.split_at(split_pos, capacity);
                    if pos <= split_pos {
                        leaf.insert_at(pos, key, value, capacity)?;
                    } else {
                        right_leaf.insert_at(pos - split_pos, key, value, capacity)?;
                    }
                    right_leaf.set_next(leaf.next());
                    let separator_key = right_leaf.keys()[0];
                    (right_leaf, separator_key)
                },
                None => {
                    return Err(BPlusTreeError::ArenaError(String::from_str("Leaf node not found")));
                },
            };
            let ghost self1 = *self;
            let ghost lnode = self.leaf_arena@[leaf_id];
            proof {
                lemma_gc_leaf_halves(ks, vs, pos as int, key, value, split_pos as int, lnode.spec_keys(),
                    lnode.spec_values(), right_leaf.spec_keys(), right_leaf.spec_values(), lo, hi);
            }
            let right_leaf_id = self.leaf_arena.allocate(right_leaf);
            match self.leaf_arena.get_mut(leaf_id) {
                Some(leaf) => {
                    leaf.set_next(right_leaf_id);
                },
                None => {},
            }
            let r = InsertResult::Split {
                old_value: None,
                new_node_data: SplitNodeData::Leaf(NodeRef::Leaf(right_leaf_id, PhantomData)),
                separator_key,
            };
            proof {
                let ns1 = self.views();
                let rn = NodeRef::<K, V>::Leaf(right_leaf_id, PhantomData);
                let nl = self.leaf_arena@[leaf_id];
                let c1 = insert_entry(c0, key, value);
                assert(right_leaf_id != leaf_id);
                assert(nl.spec_keys() == lnode.spec_keys());
                assert(nl.spec_values() == lnode.spec_values());
                assert(nl.spec_next() == right_leaf_id);
                assert(right_leaf.spec_next() == after);
                assert(ns1.leaves[leaf_id] == gc_lview(nl));
                assert(ns1.leaves[right_leaf_id] == gc_lview(right_leaf));
                assert(ns1.branches =~= ns0.branches);
                lemma_zip(nl.spec_keys(), nl.spec_values());
                lemma_zip(right_leaf.spec_keys(), right_leaf.spec_values());
                assert(leaf_seq(ns1, rn, 0)[0] == right_leaf_id);
                assert(wf_node(ns1, n, 0, lo, Some(separator_key.rank()), right_leaf_id));
                assert(wf_node(ns1, rn, 0, Some(separator_key.rank()), hi, after));
                assert(content(ns1, n, 0) + content(ns1, rn, 0) == c1);
                assert(forall|x: NodeRef<K, V>| #[trigger] in_tree(ns1, n, 0, x) == (x == n));
                assert(forall|x: NodeRef<K, V>| #[trigger] in_tree(ns1, rn, 0, x) == (x == rn));
                assert(!ns0.has(rn));
                assert forall|x: NodeRef<K, V>| ns0.has(x) && !in_tree(ns0, n, 0, x) implies #[trigger] ns0.same_node(ns1, x) by {
                    if x is Leaf {
                        assert(x.spec_id() != leaf_id);
                        assert(x.spec_id() != right_leaf_id);
                    }
                }
                assert forall|x: NodeRef<K, V>| #[trigger] ns0.has(x) implies ns1.has(x) by {
                }
                assert(split_ref(SplitNodeData::Leaf(rn)) == rn);
                assert(stored_split_ok(ns0, ns1, n, 0, lo, hi, after, rn, separator_key, c1));
                lemma_choose_lower_index(c0, key, pos as int);
                assert(entry_keys(c0) == ks);
                assert(old_self.sizes_ok());
                assert(old_self.leaf_arena@.contains_key(leaf_id));
                assert(c0.len() == capacity);
                let m = gc_leaf_split_len(pos as int, capacity as int);
                assert(content(ns1, n, 0).len() == m);
                assert(content(ns1, n, 0) =~= c1.subrange(0, m));
                assert(c1[m] == content(ns1, rn, 0)[0]);
                assert forall|id: NodeId| #[trigger] self.leaf_arena@.contains_key(id) implies self.leaf_arena@[id].spec_keys().len() <= self.capacity by {
                    if id != leaf_id && id != right_leaf_id {
                        assert(old_self.leaf_arena@.contains_key(id));
                    }
                }
            }
            Ok(r)
        } else {
            match self.leaf_arena.get_mut(leaf_id) {
                Some(leaf) => {
                    leaf.insert_at(pos, key, value, capacity)?;
                    proof {
                        let ns1 = self.views();
                        let nl = self.leaf_arena@[leaf_id];
                        let c1 = insert_entry(c0, key, value);
                        lemma_choose_lower_index(c0, key, pos as int);
                        assert(entry_keys(c0) == ks);
                        assert(!(pos < c0.len() && c0[pos as int].0 == key)) by {
                            if pos < c0.len() && c0[pos as int].0 == key {
                                assert(ks[pos as int] == key);
                            }
                        }
                        lemma_zip_insert(ks, vs, pos as int, key, value);
                        lemma_zip(nl.spec_keys(), nl.spec_values());
                        lemma_insert_entry_sorted(c0, key, value);
                        lemma_insert_entry_in(c0, key, value, lo, hi);
                        lemma_keys_in_zip(nl.spec_keys(), nl.spec_values(), lo, hi);
                        assert(ns1.leaves =~= ns0.leaves.insert(leaf_id, gc_lview(nl)));
                        assert(ns1.branches =~= ns0.branches);
                        assert(content(ns1, n, 0) == c1);
                        assert(forall|x: NodeRef<K, V>| #[trigger] in_tree(ns1, n, 0, x) == (x == n));
                        assert forall|x: NodeRef<K, V>| ns0.has(x) && !in_tree(ns0, n, 0, x) implies #[trigger] ns0.same_node(ns1, x) by {
                            if x is Leaf {
                                assert(x.spec_id() != leaf_id);
                            }
                        }
                        assert forall|id: NodeId| #[trigger] self.leaf_arena@.contains_key(id) implies self.leaf_arena@[id].spec_keys().len() <= self.capacity by {
                            if id != leaf_id {
                                assert(old_self.leaf_arena@.contains_key(id));
                            }
                        }
                    }
                    Ok(InsertResult::Updated(None))
                },
                None => Err(BPlusTreeError::ArenaError(String::from_str("Leaf node not found"))),
            }
        }
    }
}

/// Splitting a full body at key `sp` and then inserting a separator and
/// child after child `i` into the half holding it gives the halves of the
/// body with the insertion, split around the key that went up.
proof fn lemma_split_then_insert<K, V>(
    b: BranchView<K, V>,
    i: int,
    sp: int,
    sep: K,
    rn: NodeRef<K, V>,
    mid: K,
    l: BranchView<K, V>,
    r: BranchView<K, V>,
)
    requires
        b.children.len() == b.keys.len() + 1,
        0 <= i < b.children.len(),
        1 <= sp < b.keys.len(),
        mid == b.keys[sp],
        i <= sp ==> l.keys == b.keys.subrange(0, sp).insert(i, sep) && l.children == b.children.subrange(0, sp + 1).insert(
            i + 1,
            rn,
        ) && r.keys == b.keys.subrange(sp + 1, b.keys.len() as int) && r.children == b.children.subrange(
            sp + 1,
            b.children.len() as int,
        ),
        i > sp ==> l.keys == b.keys.subrange(0, sp) && l.children == b.children.subrange(0, sp + 1) && r.keys
            == b.keys.subrange(sp + 1, b.keys.len() as int).insert(i - sp - 1, sep) && r.children == b.children.subrange(
            sp + 1,
            b.children.len() as int,
        ).insert(i - sp, rn),
    ensures
        ({
            let b2 = body_insert(b, i, sep, rn);
            let m2 = if i <= sp { sp + 1 } else { sp };
            &&& 0 < m2 < b2.keys.len()
            &&& l == body_left(b2, m2)
            &&& r == body_right(b2, m2)
            &&& mid == b2.keys[m2]
        }),
{
    let b2 = body_insert(b, i, sep, rn);
    let m2 = if i <= sp { sp + 1 } else { sp };
    assert(l.keys =~= body_left(b2, m2).keys);
    assert(l.children =~= body_left(b2, m2).children);
    assert(r.keys =~= body_right(b2, m2).keys);
    assert(r.children =~= body_right(b2, m2).children);
}

impl<K: TreeKey, V> GlobalCapacityBPlusTreeMap<K, V> {
    /// Insert below `node`, a subtree of height `h` within the key bounds
    /// `lo`..`hi` whose last leaf links to `after`. A child that splits has
    /// stored its right half; the separator and the new child go into this
    /// branch, which, when full, is split at half the capacity first and
    /// reports its own split with its stored right half.
    #[verifier::spinoff_prover]
    #[verifier::rlimit(80)]
    fn insert_recursive(
        &mut self,
        node: &NodeRef<K, V>,
        key: K,
        value: V,
        Ghost(h): Ghost<nat>,
        Ghost(lo): Ghost<Option<int>>,
        Ghost(hi): Ghost<Option<int>>,
        Ghost(after): Ghost<NodeId>,
    ) -> (r: BTreeResult<InsertResult<K, V>>)
        requires
            old(self).leaf_arena.wf(),
            old(self).branch_arena.wf(),
            MIN_CAPACITY <= old(self).capacity < usize::MAX,
            old(self).sizes_ok(),
            wf_node(old(self).views(), *node, h, lo, hi, after),
            rank_in(key.rank(), lo, hi),
            old(self).leaf_arena.slot_count() < NULL_NODE,
            old(self).branch_arena.slot_count() + h < NULL_NODE,
        ensures
            final(self).leaf_arena.wf(),
            final(self).branch_arena.wf(),
            final(self).capacity == old(self).capacity,
            final(self).root == old(self).root,
            final(self).height == old(self).height,
            final(self).sizes_ok(),
            final(self).leaf_arena.slot_count() <= old(self).leaf_arena.slot_count() + 1,
            final(self).branch_arena.slot_count() <= old(self).branch_arena.slot_count() + h,
            r is Ok,
            gc_insert_done(old(self).views(), final(self).views(), *node, h, lo, hi, after, key, value, r->Ok_0),
            *node is Leaf ==> gc_leaf_insert_shape(old(self).views(), final(self).views(), *node,
                old(self).capacity as int, key, value, r->Ok_0),
        decreases h,
    {
        proof {
            lemma_wf_basic(self.views(), *node, h, lo, hi, after);
        }
        match node {
            NodeRef::Leaf(id, _) => {
                self.insert_into_leaf(*id, key, value, Ghost(lo), Ghost(hi), Ghost(after))
            },
            NodeRef::Branch(id, _) => {
                let id = *id;
                let ghost ns0 = self.views();
                let ghost b = ns0.branches[id];
                let ghost ch = (h - 1) as nat;
                let ghost old_self = *self;
                proof {
                    lemma_branch_child_facts(ns0, *node, h, lo, hi, after, key);
                }
                let (child_index, child) = match self.branch_arena.get(id) {
                    Some(branch) => {
                        proof {
                            assert(b == gc_bview(*branch));
                        }
                        let child_index = branch.find_child_index(&key);
                        match branch.get_child(child_index) {
                            Some(child) => (child_index, *child),
                            None => {
                                return Err(BPlusTreeError::NodeError(String::from_str("Child not found")));
                            },
                        }
                    },
                    None => {
                        return Err(BPlusTreeError::ArenaError(String::from_str("Branch node not found")));
                    },
                };
                let ghost i = child_index as int;
                let ghost clo = child_lo(b.keys, i, lo);
                let ghost chi = child_hi(b.keys, i, hi);
                let ghost cafter = child_after(ns0, b.children, i, ch, after);
                let result = self.insert_recursive(&child, key, value, Ghost(ch), Ghost(clo), Ghost(chi), Ghost(cafter))?;
                let ghost ns1 = self.views();
                let ghost self1 = *self;
                match result {
                    InsertResult::Updated(old_value) => {
                        proof {
                            lemma_insert_branch_updated(ns0, ns1, *node, h, lo, hi, after, key, value, old_value);
                        }
                        Ok(InsertResult::Updated(old_value))
                    },
                    InsertResult::Split { old_value, new_node_data, separator_key } => {
                        let ghost d = new_node_data;
                        let new_node_ref = match new_node_data {
                            SplitNodeData::Leaf(node_ref) => node_ref,
                            SplitNodeData::Branch(node_ref) => node_ref,
                        };
                        let ghost b2 = body_insert(b, i, separator_key, new_node_ref);
                        proof {
                            assert(new_node_ref == split_ref(d));
                            lemma_gc_child_split(ns0, ns1, *node, h, lo, hi, after, key, value, d, separator_key);
                            assert(self.branch_arena@.contains_key(id));
                            assert(ns1.branches[id] == gc_bview(self.branch_arena@[id]));
                        }
                        let capacity = self.capacity;
                        match self.branch_arena.get_mut(id) {
                            Some(branch) => {
                                if branch.is_full(capacity) {
                                    let split_pos = capacity / 2;
                                    let ghost m2: int = if i <= split_pos { split_pos + 1 } else { split_pos as int };
                                    proof {
                                        assert(branch.spec_keys().len() == capacity);
                                    }
                                    let (mid_key, mut right_branch) = branch.split_at(split_pos, capacity);
                                    if child_index <= split_pos {
                                        branch.insert_at(child_index, separator_key, new_node_ref, capacity)?;
                                    } else {
                                        right_branch.insert_at(child_index - split_pos - 1, separator_key, new_node_ref, capacity)?;
                                    }
                                    proof {
                                        lemma_split_then_insert(b, i, split_pos as int, separator_key, new_node_ref, mid_key,
                                            gc_bview(*branch), gc_bview(right_branch));
                                    }
                                    let ghost self3 = *self;
                                    let right_branch_id = self.branch_arena.allocate(right_branch);
                                    proof {
                                        let ns4 = self.views();
                                        assert(ns4.leaves =~= ns1.leaves);
                                        assert(ns4.branches =~= ns1.branches.insert(id, body_left(b2, m2)).insert(
                                            right_branch_id, body_right(b2, m2)));
                                        lemma_gc_branch_split(ns0, ns1, ns4, *node, h, lo, hi, after, key, value, b, b2, m2,
                                            right_branch_id);
                                        assert forall|bid: NodeId| #[trigger] self.branch_arena@.contains_key(bid) implies self.branch_arena@[bid].spec_keys().len() <= self.capacity by {
                                            if bid != id && bid != right_branch_id {
                                                assert(self1.branch_arena@.contains_key(bid));
                                            }
                                        }
                                    }
                                    Ok(InsertResult::Split {
                                        old_value,
                                        new_node_data: SplitNodeData::Branch(NodeRef::Branch(right_branch_id, PhantomData)),
                                        separator_key: mid_key,
                                    })
                                } else {
                                    branch.insert_at(child_index, separator_key, new_node_ref, capacity)?;
                                    proof {
                                        let ns3 = self.views();
                                        assert(gc_bview(self.branch_arena@[id]) =~= b2);
                                        assert(ns3.leaves =~= ns1.leaves);
                                        assert(ns3.branches =~= ns1.branches.insert(id, b2));
                                        lemma_insert_branch_grown(ns0, ns1, ns3, *node, h, lo, hi, after, key, value, b, b2);
                                        assert forall|bid: NodeId| #[trigger] self.branch_arena@.contains_key(bid) implies self.branch_arena@[bid].spec_keys().len() <= self.capacity by {
                                            if bid != id {
                                                assert(self1.branch_arena@.contains_key(bid));
                                            }
                                        }
                                    }
                                    Ok(InsertResult::Updated(old_value))
                                }
                            },
                            None => Err(BPlusTreeError::ArenaError(String::from_str("Branch node not found"))),
                        }
                    },
                    InsertResult::Error(err) => Ok(InsertResult::Error(err)),
                }
            },
        }
    }
}


impl<K: TreeKey, V> GlobalCapacityBPlusTreeMap<K, V> {
    /// There is an arena slot for every node one insertion may create: a
    /// leaf, and a branch on each level plus a new root.
    pub open spec fn has_room(&self) -> bool {
        &&& self.spec_leaf_slots() < NULL_NODE
        &&& self.spec_branch_slots() + self.spec_height() + 1 < NULL_NODE
    }

    /// Slots of the leaf arena, allocated or free.
    pub closed spec fn spec_leaf_slots(&self) -> nat {
        self.leaf_arena.slot_count()
    }

    /// Slots of the branch arena, allocated or free.
    pub closed spec fn spec_branch_slots(&self) -> nat {
        self.branch_arena.slot_count()
    }

    /// Whether the arenas have room for the nodes one insertion may create.
    pub fn has_room_for_insert(&self) -> (r: bool)
        requires
            self.wf(),
        ensures
            r == self.has_room(),
    {
        let leaves = self.leaf_arena.slot_total() as u64;
        let branches = self.branch_arena.slot_total() as u64;
        let height = self.tree_height() as u64;
        leaves < NULL_NODE as u64 && branches < NULL_NODE as u64 && height < NULL_NODE as u64 && branches + height + 1
            < NULL_NODE as u64
    }

    /// The height of the tree, counted down the first children; it stops
    /// counting at `usize::MAX`.
    fn tree_height(&self) -> (r: usize)
        requires
            self.wf(),
        ensures
            r == (if self.height@ < usize::MAX { self.height@ } else { usize::MAX as nat }),
    {
        let ghost ns = self.views();
        let mut current = self.root;
        let mut count: usize = 0;
        let ghost mut h: nat = self.height@;
        let ghost mut lo: Option<int> = None;
        let ghost mut hi: Option<int> = None;
        let ghost mut after: NodeId = NULL_NODE;
        loop
            invariant
                self.wf(),
                ns == self.views(),
                wf_node(ns, current, h, lo, hi, after),
                h <= self.height@,
                count == (if self.height@ - h < usize::MAX { (self.height@ - h) as nat } else { usize::MAX as nat }),
            decreases h,
        {
            proof {
                lemma_wf_basic(ns, current, h, lo, hi, after);
            }
            match current {
                NodeRef::Leaf(_, _) => {
                    return count;
                },
                NodeRef::Branch(id, _) => {
                    let ghost b = ns.branches[id];
                    let ghost ch = (h - 1) as nat;
                    proof {
                        lemma_wf_branch_unfold(ns, current, h, lo, hi, after);
                        assert(wf_node(ns, b.children[0], ch, child_lo(b.keys, 0, lo), child_hi(b.keys, 0, hi),
                            child_after(ns, b.children, 0, ch, after)));
                    }
                    match self.branch_arena.get(id) {
                        Some(branch) => {
                            proof {
                                assert(b == gc_bview(*branch));
                            }
                            match branch.get_child(0) {
                                Some(child) => {
                                    proof {
                                        lo = child_lo(b.keys, 0, lo);
                                        hi = child_hi(b.keys, 0, hi);
                                        after = child_after(ns, b.children, 0, ch, after);
                                        h = ch;
                                    }
                                    current = *child;
                                    if count < usize::MAX {
                                        count = count + 1;
                                    }
                                },
                                None => {
                                    return count;
                                },
                            }
                        },
                        None => {
                            return count;
                        },
                    }
                },
            }
        }
    }

    /// Insert `value` under `key`, returning the value it replaced. When the
    /// root splits, a new root branch takes the separator and both halves.
    pub fn insert(&mut self, key: K, value: V) -> (r: BTreeResult<Option<V>>)
        requires
            old(self).wf(),
            old(self).has_room(),
        ensures
            final(self).wf(),
            final(self).spec_capacity() == old(self).spec_capacity(),
            final(self).entries() == insert_entry(old(self).entries(), key, value),
            final(self)@ == old(self)@.insert(key, value),
            r == Ok::<Option<V>, BPlusTreeError>(if old(self)@.contains_key(key) {
                Some(old(self)@[key])
            } else {
                None
            }),
            final(self).spec_height() <= old(self).spec_height() + 1,
            final(self).spec_leaf_slots() <= old(self).spec_leaf_slots() + 1,
            final(self).spec_branch_slots() <= old(self).spec_branch_slots() + old(self).spec_height() + 1,
    {
        let ghost ns0 = self.views();
        let ghost h = self.height@;
        let ghost c0 = self.entries();
        let ghost c1 = insert_entry(c0, key, value);
        proof {
            self.lemma_entries_sorted();
            crate::sorted::lemma_map_insert_entry(c0, key, value);
            lemma_wf_basic(ns0, self.root, h, None, None, NULL_NODE);
        }
        let root = self.root;
        let result = self.insert_recursive(&root, key, value, Ghost(h), Ghost(None), Ghost(None), Ghost(NULL_NODE))?;
        let old_value = match result {
            InsertResult::Updated(old_value) => old_value,
            InsertResult::Split { old_value, new_node_data, separator_key } => {
                let ghost ns2 = self.views();
                let ghost self1 = *self;
                let new_node_ref = match new_node_data {
                    SplitNodeData::Leaf(node_ref) => node_ref,
                    SplitNodeData::Branch(node_ref) => node_ref,
                };
                proof {
                    assert(new_node_ref == split_ref(new_node_data));
                }
                let capacity = self.capacity;
                let mut new_root = GlobalCapacityBranchNode::new(capacity);
                new_root.children_mut().push(root);
                new_root.insert_at(0, separator_key, new_node_ref, capacity)?;
                let root_id = self.branch_arena.allocate(new_root);
                self.root = NodeRef::Branch(root_id, PhantomData);
                self.height = Ghost(h + 1);
                proof {
                    let ns3 = self.views();
                    assert(new_root.spec_keys() =~= seq![separator_key]);
                    assert(new_root.spec_children() =~= seq![root, new_node_ref]);
                    assert(ns3.leaves =~= ns2.leaves);
                    assert(ns3.branches =~= ns2.branches.insert(root_id, BranchView { keys: seq![separator_key], children: seq![root, new_node_ref] }));
                    lemma_gc_new_root(ns0, ns2, ns3, root, h, new_node_ref, separator_key, root_id, c1);
                    assert forall|bid: NodeId| #[trigger] self.branch_arena@.contains_key(bid) implies self.branch_arena@[bid].spec_keys().len() <= self.capacity by {
                        if bid != root_id {
                            assert(self1.branch_arena@.contains_key(bid));
                        }
                    }
                }
                old_value
            },
            InsertResult::Error(err) => {
                return Err(err);
            },
        };
        proof {
            if old_value is Some {
                crate::sorted::lemma_map_get(c0, key, old_value->Some_0);
            }
        }
        Ok(old_value)
    }
}


/// Removing the key at `pos` from the leaf `n` removes its entry from the
/// leaf's subtree and keeps it well-formed.
proof fn lemma_leaf_removed<K: TreeKey, V>(
    ns0: NodeViews<K, V>,
    ns1: NodeViews<K, V>,
    n: NodeRef<K, V>,
    lo: Option<int>,
    hi: Option<int>,
    after: NodeId,
    pos: int,
    k: K,
)
    requires
        wf_node(ns0, n, 0, lo, hi, after),
        n is Leaf,
        0 <= pos < ns0.leaves[n.spec_id()].keys.len(),
        ns0.leaves[n.spec_id()].keys[pos] == k,
        ns1 == (NodeViews {
            leaves: ns0.leaves.insert(n.spec_id(), LeafView {
                keys: ns0.leaves[n.spec_id()].keys.remove(pos),
                values: ns0.leaves[n.spec_id()].values.remove(pos),
                next: ns0.leaves[n.spec_id()].next,
            }),
            branches: ns0.branches,
        }),
    ensures
        subtree_kept(ns0, ns1, n, 0, lo, hi, after, remove_entry(content(ns0, n, 0), k)),
        content(ns0, n, 0).contains((k, ns0.leaves[n.spec_id()].values[pos])),
{
    let id = n.spec_id();
    let lv = ns0.leaves[id];
    let nl = ns1.leaves[id];
    lemma_zip(lv.keys, lv.values);
    lemma_zip(nl.keys, nl.values);
    let e0 = zip_entries(lv.keys, lv.values);
    assert(content(ns0, n, 0) == e0);
    assert(forall|x: NodeRef<K, V>| #[trigger] in_tree(ns0, n, 0, x) == (x == n));
    assert(forall|x: NodeRef<K, V>| #[trigger] in_tree(ns1, n, 0, x) == (x == n));
    assert forall|x: NodeRef<K, V>| ns0.has(x) && !in_tree(ns0, n, 0, x) implies #[trigger] ns0.same_node(ns1, x) by {
        if x is Leaf {
            assert(x.spec_id() != id);
        }
    }
    assert(is_lower_index(entry_keys(e0), k, pos)) by {
        assert forall|j: int| 0 <= j < pos implies #[trigger] entry_keys(e0)[j].rank() < k.rank() by {
            assert(lv.keys[j].rank() < lv.keys[pos].rank());
        }
        assert forall|j: int| pos <= j < e0.len() implies k.rank() <= #[trigger] entry_keys(e0)[j].rank() by {
            if j > pos {
                assert(lv.keys[pos].rank() < lv.keys[j].rank());
            }
        }
    }
    lemma_choose_lower_index(e0, k, pos);
    assert(zip_entries(nl.keys, nl.values) =~= e0.remove(pos));
    assert(e0[pos] == (k, lv.values[pos]));
    assert forall|p1: int, q1: int| 0 <= p1 < q1 < nl.keys.len() implies #[trigger] nl.keys[p1].rank() < #[trigger] nl.keys[q1].rank() by {
        let po = if p1 < pos { p1 } else { p1 + 1 };
        let qo = if q1 < pos { q1 } else { q1 + 1 };
        assert(lv.keys[po].rank() < lv.keys[qo].rank());
    }
    assert forall|t: int| 0 <= t < nl.keys.len() implies rank_in(#[trigger] nl.keys[t].rank(), lo, hi) by {
        let to = if t < pos { t } else { t + 1 };
        assert(nl.keys[t] == lv.keys[to]);
    }
    assert(content(ns1, n, 0) == zip_entries(nl.keys, nl.values));
}

impl<K: TreeKey, V> GlobalCapacityBPlusTreeMap<K, V> {
    /// Remove `key` from the leaf below `node` that covers it, without
    /// rebalancing, and return the stored entry.
    fn remove_entry_recursive(
        &mut self,
        node: &NodeRef<K, V>,
        key: &K,
        Ghost(h): Ghost<nat>,
        Ghost(lo): Ghost<Option<int>>,
        Ghost(hi): Ghost<Option<int>>,
        Ghost(after): Ghost<NodeId>,
    ) -> (r: BTreeResult<Option<(K, V)>>)
        requires
            old(self).leaf_arena.wf(),
            old(self).branch_arena.wf(),
            old(self).sizes_ok(),
            wf_node(old(self).views(), *node, h, lo, hi, after),
            rank_in(key.rank(), lo, hi),
        ensures
            final(self).leaf_arena.wf(),
            final(self).branch_arena == old(self).branch_arena,
            final(self).capacity == old(self).capacity,
            final(self).root == old(self).root,
            final(self).height == old(self).height,
            final(self).sizes_ok(),
            final(self).leaf_arena.slot_count() == old(self).leaf_arena.slot_count(),
            subtree_kept(old(self).views(), final(self).views(), *node, h, lo, hi, after,
                remove_entry(content(old(self).views(), *node, h), *key)),
            r is Ok,
            match r->Ok_0 {
                Some(e) => e.0 == *key && content(old(self).views(), *node, h).contains(e),
                None => !has_key(content(old(self).views(), *node, h), *key),
            },
        decreases h,
    {
        let ghost ns0 = self.views();
        let ghost t0 = *self;
        proof {
            lemma_wf_basic(ns0, *node, h, lo, hi, after);
            lemma_kept_refl(ns0, *node, h, lo, hi, after);
        }
        match node {
            NodeRef::Leaf(id, _) => {
                let id = *id;
                let ghost lv = ns0.leaves[id];
                match self.leaf_arena.get_mut(id) {
                    Some(leaf) => {
                        proof {
                            assert(lv == gc_lview(*leaf));
                        }
                        match search_keys(leaf.keys(), key) {
                            Ok(pos) => {
                                let (removed_key, removed_value) = leaf.remove_at(pos);
                                proof {
                                    let ns1 = self.views();
                                    assert(ns1.leaves =~= ns0.leaves.insert(id, LeafView {
                                        keys: lv.keys.remove(pos as int),
                                        values: lv.values.remove(pos as int),
                                        next: lv.next,
                                    }));
                                    assert(ns1.branches =~= ns0.branches);
                                    lemma_leaf_removed(ns0, ns1, *node, lo, hi, after, pos as int, *key);
                                    assert forall|lid: NodeId| #[trigger] self.leaf_arena@.contains_key(lid) implies self.leaf_arena@[lid].spec_keys().len() <= self.capacity by {
                                        assert(t0.leaf_arena@.contains_key(lid));
                                    }
                                }
                                Ok(Some((removed_key, removed_value)))
                            },
                            Err(_) => {
                                proof {
                                    let c = content(ns0, *node, h);
                                    lemma_zip(lv.keys, lv.values);
                                    assert(self.leaf_arena@ =~= t0.leaf_arena@);
                                    assert(self.views().leaves =~= ns0.leaves);
                                    assert(self.views().branches =~= ns0.branches);
                                    assert(self.views() == ns0);
                                    if has_key(c, *key) {
                                        let i = choose|i: int| 0 <= i < c.len() && #[trigger] c[i].0 == *key;
                                        assert(lv.keys[i] == *key);
                                    }
                                    let p = choose|p: int| is_lower_index(entry_keys(c), *key, p);
                                    if p < c.len() && c[p].0 == *key {
                                        assert(lv.keys[p] == *key);
                                    }
                                    assert(remove_entry(c, *key) == c);
                                }
                                Ok(None)
                            },
                        }
                    },
                    None => Err(BPlusTreeError::ArenaError(String::from_str("Leaf node not found"))),
                }
            },
            NodeRef::Branch(id, _) => {
                let id = *id;
                let ghost b = ns0.branches[id];
                let ghost ch = (h - 1) as nat;
                proof {
                    lemma_locate(ns0, *node, h, lo, hi, after, *key);
                    lemma_wf_branch_unfold(ns0, *node, h, lo, hi, after);
                }
                let child = match self.branch_arena.get(id) {
                    Some(branch) => {
                        proof {
                            assert(b == gc_bview(*branch));
                        }
                        let child_index = branch.find_child_index(key);
                        match branch.get_child(child_index) {
                            Some(child) => *child,
                            None => {
                                return Ok(None);
                            },
                        }
                    },
                    None => {
                        return Err(BPlusTreeError::ArenaError(String::from_str("Branch node not found")));
                    },
                };
                let ghost i = child_pos(b.keys, *key);
                let r = self.remove_entry_recursive(
                    &child,
                    key,
                    Ghost(ch),
                    Ghost(child_lo(b.keys, i, lo)),
                    Ghost(child_hi(b.keys, i, hi)),
                    Ghost(child_after(ns0, b.children, i, ch, after)),
                );
                proof {
                    let ns1 = self.views();
                    let old_v: Option<V> = match r->Ok_0 {
                        Some(e) => Some(e.1),
                        None => None,
                    };
                    lemma_remove_branch_updated(ns0, ns1, *node, h, lo, hi, after, *key, old_v);
                    if r->Ok_0 is Some {
                        let e = r->Ok_0->Some_0;
                        assert(e == (*key, e.1));
                    }
                }
                r
            },
        }
    }
}


impl<K: TreeKey, V> GlobalCapacityBPlusTreeMap<K, V> {
    /// Remove `key` and return its value, if it was present.
    pub fn remove(&mut self, key: &K) -> (r: BTreeResult<Option<V>>)
        requires
            old(self).wf(),
        ensures
            final(self).wf(),
            final(self).spec_capacity() == old(self).spec_capacity(),
            final(self).entries() == remove_entry(old(self).entries(), *key),
            final(self)@ == old(self)@.remove(*key),
            r == Ok::<Option<V>, BPlusTreeError>(if old(self)@.contains_key(*key) {
                Some(old(self)@[*key])
            } else {
                None
            }),
    {
        match self.remove_entry(key) {
            Ok(Some((_k, v))) => Ok(Some(v)),
            Ok(None) => Ok(None),
            Err(e) => Err(e),
        }
    }

    /// Remove `key` and return the stored key with its value. The entry
    /// leaves its leaf; no node is merged or rebalanced.
    pub fn remove_entry(&mut self, key: &K) -> (r: BTreeResult<Option<(K, V)>>)
        requires
            old(self).wf(),
        ensures
            final(self).wf(),
            final(self).spec_capacity() == old(self).spec_capacity(),
            final(self).spec_root() == old(self).spec_root(),
            final(self).spec_height() == old(self).spec_height(),
            final(self).spec_leaf_slots() == old(self).spec_leaf_slots(),
            final(self).spec_branch_slots() == old(self).spec_branch_slots(),
            final(self).entries() == remove_entry(old(self).entries(), *key),
            final(self)@ == old(self)@.remove(*key),
            r == Ok::<Option<(K, V)>, BPlusTreeError>(if old(self)@.contains_key(*key) {
                Some((*key, old(self)@[*key]))
            } else {
                None
            }),
    {
        let ghost h = self.height@;
        let ghost c0 = self.entries();
        proof {
            self.lemma_entries_sorted();
            crate::sorted::lemma_map_remove_entry(c0, *key);
        }
        let root = self.root;
        let r = self.remove_entry_recursive(&root, key, Ghost(h), Ghost(None), Ghost(None), Ghost(NULL_NODE));
        proof {
            match r->Ok_0 {
                Some(e) => {
                    crate::sorted::lemma_map_get(c0, *key, e.1);
                },
                None => {},
            }
        }
        r
    }
}


impl<K: TreeKey, V> GlobalCapacityBPlusTreeMap<K, V> {
    /// The first leaf below `node`, following first children.
    fn find_first_leaf_recursive(
        &self,
        node: &NodeRef<K, V>,
        Ghost(h): Ghost<nat>,
        Ghost(lo): Ghost<Option<int>>,
        Ghost(hi): Ghost<Option<int>>,
        Ghost(after): Ghost<NodeId>,
    ) -> (r: Option<NodeId>)
        requires
            self.leaf_arena.wf(),
            self.branch_arena.wf(),
            wf_node(self.views(), *node, h, lo, hi, after),
        ensures
            r == Some(leaf_seq(self.views(), *node, h)[0]),
        decreases h,
    {
        let ghost ns = self.views();
        proof {
            lemma_wf_basic(ns, *node, h, lo, hi, after);
        }
        match node {
            NodeRef::Leaf(id, _) => Some(*id),
            NodeRef::Branch(id, _) => {
                let ghost b = ns.branches[*id];
                let ghost ch = (h - 1) as nat;
                proof {
                    lemma_wf_branch_unfold(ns, *node, h, lo, hi, after);
                    assert(wf_node(ns, b.children[0], ch, child_lo(b.keys, 0, lo), child_hi(b.keys, 0, hi),
                        child_after(ns, b.children, 0, ch, after)));
                    lemma_wf_basic(ns, b.children[0], ch, child_lo(b.keys, 0, lo), child_hi(b.keys, 0, hi),
                        child_after(ns, b.children, 0, ch, after));
                    crate::tree_spec::lemma_first_leaf(ns, b.children, ch);
                }
                match self.branch_arena.get(*id) {
                    Some(branch) => {
                        proof {
                            assert(b == gc_bview(*branch));
                        }
                        match branch.get_child(0) {
                            Some(first_child) => self.find_first_leaf_recursive(
                                first_child,
                                Ghost(ch),
                                Ghost(child_lo(b.keys, 0, lo)),
                                Ghost(child_hi(b.keys, 0, hi)),
                                Ghost(child_after(ns, b.children, 0, ch, after)),
                            ),
                            None => None,
                        }
                    },
                    None => None,
                }
            },
        }
    }

    /// The first leaf of the tree.
    fn find_first_leaf(&self) -> (r: Option<NodeId>)
        requires
            self.wf(),
        ensures
            r == Some(leaf_seq(self.views(), self.root, self.height@)[0]),
    {
        self.find_first_leaf_recursive(&self.root, Ghost(self.height@), Ghost(None), Ghost(None), Ghost(NULL_NODE))
    }


    /// The entry with the smallest key, if any.
    pub fn first_key_value(&self) -> (r: Option<(&K, &V)>)
        requires
            self.wf(),
        ensures
            r == (if self.entries().len() > 0 {
                Some((&self.entries()[0].0, &self.entries()[0].1))
            } else {
                None
            }),
    {
        let mut it = self.range(KeyBound::Unbounded, KeyBound::Unbounded);
        it.next()
    }
}


impl<K: TreeKey, V> GlobalCapacityBPlusTreeMap<K, V> {
    /// The entry with the largest key, if any.
    pub fn last_key_value(&self) -> (r: Option<(&K, &V)>)
        requires
            self.wf(),
        ensures
            r == (if self.entries().len() > 0 {
                Some((&self.entries().last().0, &self.entries().last().1))
            } else {
                None
            }),
    {
        let ghost e = self.entries();
        let mut it = self.range(KeyBound::Unbounded, KeyBound::Unbounded);
        let mut last: Option<(&K, &V)> = None;
        loop
            invariant_except_break
                !it.done(),
                0 <= it.pos() <= e.len(),
                last == (if it.pos() > 0 {
                    Some((&e[it.pos() - 1].0, &e[it.pos() - 1].1))
                } else {
                    None
                }),
            invariant
                it.valid(),
                it.spec_tree() == self,
                e == self.entries(),
                it.spec_end_bound() == KeyBound::<K>::Unbounded,
            ensures
                last == (if e.len() > 0 {
                    Some((&e.last().0, &e.last().1))
                } else {
                    None
                }),
            decreases e.len() - it.pos(),
        {
            let ghost g = it.pos();
            match it.next() {
                Some(kv) => {
                    last = Some(kv);
                },
                None => {
                    break;
                },
            }
        }
        last
    }

    /// Remove the entry with the smallest key and return it.
    pub fn pop_first(&mut self) -> (r: BTreeResult<Option<(K, V)>>)
        requires
            old(self).wf(),
        ensures
            final(self).wf(),
            final(self).spec_capacity() == old(self).spec_capacity(),
            r is Ok,
            old(self).entries().len() > 0 ==> {
                &&& r->Ok_0 == Some(old(self).entries()[0])
                &&& final(self).entries() == remove_entry(old(self).entries(), old(self).entries()[0].0)
                &&& final(self)@ == old(self)@.remove(old(self).entries()[0].0)
            },
            old(self).entries().len() == 0 ==> r->Ok_0 is None && *final(self) == *old(self),
    {
        let ghost c0 = self.entries();
        proof {
            self.lemma_entries_sorted();
        }
        let first = self.first_key_value();
        match first {
            Some((key, _)) => {
                let key = *key;
                proof {
                    crate::sorted::lemma_map_get(c0, c0[0].0, c0[0].1);
                    assert(c0.contains(c0[0]));
                }
                self.remove_entry(&key)
            },
            None => Ok(None),
        }
    }

    /// Remove the entry with the largest key and return it.
    pub fn pop_last(&mut self) -> (r: BTreeResult<Option<(K, V)>>)
        requires
            old(self).wf(),
        ensures
            final(self).wf(),
            final(self).spec_capacity() == old(self).spec_capacity(),
            r is Ok,
            old(self).entries().len() > 0 ==> {
                &&& r->Ok_0 == Some(old(self).entries().last())
                &&& final(self).entries() == remove_entry(old(self).entries(), old(self).entries().last().0)
                &&& final(self)@ == old(self)@.remove(old(self).entries().last().0)
            },
            old(self).entries().len() == 0 ==> r->Ok_0 is None && *final(self) == *old(self),
    {
        let ghost c0 = self.entries();
        proof {
            self.lemma_entries_sorted();
        }
        let last = self.last_key_value();
        match last {
            Some((key, _)) => {
                let key = *key;
                proof {
                    assert(c0.contains(c0[c0.len() - 1]));
                    crate::sorted::lemma_map_get(c0, c0.last().0, c0.last().1);
                }
                self.remove_entry(&key)
            },
            None => Ok(None),
        }
    }
}


/// Where a search for `k` below `n` lands: in the leaf reached by
/// descending toward `k`, the first key at or above `k` (above it when
/// `excluded` and `k` is there); past the leaf's end, the start of the next
/// leaf, or nothing after the last leaf.
pub open spec fn key_position<K: TreeKey, V>(
    ns: NodeViews<K, V>,
    n: NodeRef<K, V>,
    h: nat,
    k: K,
    excluded: bool,
) -> (Option<NodeId>, usize) {
    let lid = descend_leaf(ns, n, h, k);
    let lv = ns.leaves[lid];
    let p = choose|p: int| is_lower_index(lv.keys, k, p);
    let q = if excluded && p < lv.keys.len() && lv.keys[p] == k {
        p + 1
    } else {
        p
    };
    if q < lv.keys.len() {
        (Some(lid), q as usize)
    } else if lv.next != NULL_NODE {
        (Some(lv.next), 0usize)
    } else {
        (None, 0usize)
    }
}

/// `s` is where the entries above the lower bound `b` begin.
pub open spec fn starts_at<K: TreeKey, V>(e: Seq<(K, V)>, b: KeyBound<K>, s: int) -> bool {
    &&& 0 <= s <= e.len()
    &&& forall|j: int| 0 <= j < s ==> !above_lower(b, #[trigger] e[j].0)
    &&& forall|j: int| s <= j < e.len() ==> above_lower(b, #[trigger] e[j].0)
}

impl<K: TreeKey, V> GlobalCapacityBPlusTreeMap<K, V> {
    /// Where a range from `key` starts below `node`.
    fn find_key_position_recursive(
        &self,
        node: &NodeRef<K, V>,
        key: &K,
        excluded: bool,
        Ghost(h): Ghost<nat>,
        Ghost(lo): Ghost<Option<int>>,
        Ghost(hi): Ghost<Option<int>>,
        Ghost(after): Ghost<NodeId>,
    ) -> (r: (Option<NodeId>, usize))
        requires
            self.leaf_arena.wf(),
            self.branch_arena.wf(),
            wf_node(self.views(), *node, h, lo, hi, after),
            rank_in(key.rank(), lo, hi),
        ensures
            r == key_position(self.views(), *node, h, *key, excluded),
        decreases h,
    {
        let ghost ns = self.views();
        proof {
            lemma_wf_basic(ns, *node, h, lo, hi, after);
        }
        match node {
            NodeRef::Leaf(id, _) => {
                match self.leaf_arena.get(*id) {
                    Some(leaf) => {
                        let ghost lv = ns.leaves[*id];
                        proof {
                            assert(lv == gc_lview(*leaf));
                        }
                        match search_keys(leaf.keys(), key) {
                            Ok(pos) => {
                                proof {
                                    crate::sorted::lemma_lower_index_unique(lv.keys, *key, pos as int,
                                        choose|p: int| is_lower_index(lv.keys, *key, p));
                                }
                                let len = leaf.len();
                                if excluded {
                                    if pos + 1 < len {
                                        (Some(*id), pos + 1)
                                    } else {
                                        let next_leaf = leaf.next();
                                        if next_leaf != NULL_NODE {
                                            (Some(next_leaf), 0)
                                        } else {
                                            (None, 0)
                                        }
                                    }
                                } else {
                                    (Some(*id), pos)
                                }
                            },
                            Err(pos) => {
                                proof {
                                    crate::sorted::lemma_lower_index_unique(lv.keys, *key, pos as int,
                                        choose|p: int| is_lower_index(lv.keys, *key, p));
                                    let p = pos as int;
                                    if p < lv.keys.len() {
                                        assert(lv.keys[p] != *key);
                                    }
                                }
                                if pos < leaf.len() {
                                    (Some(*id), pos)
                                } else {
                                    let next_leaf = leaf.next();
                                    if next_leaf != NULL_NODE {
                                        (Some(next_leaf), 0)
                                    } else {
                                        (None, 0)
                                    }
                                }
                            },
                        }
                    },
                    None => (None, 0),
                }
            },
            NodeRef::Branch(id, _) => {
                proof {
                    lemma_locate(ns, *node, h, lo, hi, after, *key);
                }
                match self.branch_arena.get(*id) {
                    Some(branch) => {
                        proof {
                            assert(ns.branches[*id] == gc_bview(*branch));
                        }
                        let child_index = branch.find_child_index(key);
                        match branch.get_child(child_index) {
                            Some(child) => {
                                let ghost i = child_index as int;
                                let ghost b = ns.branches[*id];
                                self.find_key_position_recursive(
                                    child,
                                    key,
                                    excluded,
                                    Ghost((h - 1) as nat),
                                    Ghost(child_lo(b.keys, i, lo)),
                                    Ghost(child_hi(b.keys, i, hi)),
                                    Ghost(child_after(ns, b.children, i, (h - 1) as nat, after)),
                                )
                            },
                            None => (None, 0),
                        }
                    },
                    None => (None, 0),
                }
            },
        }
    }

    /// Where a range from `key` starts.
    fn find_key_position(&self, key: &K, excluded: bool) -> (r: (Option<NodeId>, usize))
        requires
            self.wf(),
        ensures
            r == key_position(self.views(), self.root, self.height@, *key, excluded),
    {
        self.find_key_position_recursive(&self.root, key, excluded, Ghost(self.height@), Ghost(None), Ghost(None),
            Ghost(NULL_NODE))
    }

    /// The leaf and position where a range with lower bound `start_bound`
    /// starts; `None` when it starts after the last entry.
    fn find_range_start(&self, start_bound: &KeyBound<&K>) -> (r: (Option<NodeId>, usize))
        requires
            self.wf(),
        ensures
            match *start_bound {
                KeyBound::Unbounded => r == (Some(leaf_seq(self.views(), self.root, self.height@)[0]), 0usize),
                KeyBound::Included(k) => r == key_position(self.views(), self.root, self.height@, *k, false),
                KeyBound::Excluded(k) => r == key_position(self.views(), self.root, self.height@, *k, true),
            },
    {
        match start_bound {
            KeyBound::Unbounded => {
                match self.find_first_leaf() {
                    Some(first_leaf) => (Some(first_leaf), 0),
                    None => (None, 0),
                }
            },
            KeyBound::Included(key) => self.find_key_position(key, false),
            KeyBound::Excluded(key) => self.find_key_position(key, true),
        }
    }

    /// The place `key_position` gives is the start, among the tree's
    /// entries, of those above the bound: a position within leaf `kk`, or
    /// nothing when every entry lies below the bound.
    pub proof fn lemma_key_position(&self, k: K, excluded: bool) -> (kk: int)
        requires
            self.wf(),
        ensures
            ({
                let ns = self.views();
                let l = leaf_seq(ns, self.spec_root(), self.spec_height());
                let e = self.entries();
                let r = key_position(ns, self.spec_root(), self.spec_height(), k, excluded);
                let b = if excluded { KeyBound::Excluded(k) } else { KeyBound::Included(k) };
                &&& r.0 is Some ==> {
                    &&& 0 <= kk < l.len()
                    &&& l[kk] == r.0.unwrap()
                    &&& r.1 <= ns.leaves[l[kk]].keys.len()
                    &&& starts_at(e, b, chain_offset(ns, l, kk) + r.1)
                }
                &&& r.0 is None ==> starts_at(e, b, e.len() as int)
            }),
    {
        let ns = self.views();
        let h = self.height@;
        let l = leaf_seq(ns, self.root, h);
        let e = self.entries();
        let b = if excluded { KeyBound::Excluded(k) } else { KeyBound::Included(k) };
        let d = lemma_descend(ns, self.root, h, None, None, NULL_NODE, k);
        lemma_leaf_chain(ns, self.root, h, None, None, NULL_NODE);
        lemma_chain_index(ns, l, d);
        lemma_chain_offset_ends(ns, l);
        lemma_wf_basic(ns, self.root, h, None, None, NULL_NODE);
        self.lemma_entries_sorted();
        let lid = l[d];
        let lv = ns.leaves[lid];
        assert(ns.leaves.contains_key(lid));
        lemma_zip(lv.keys, lv.values);
        let le = leaf_entries(lv);
        let off = chain_offset(ns, l, d);
        let crate::tree_spec::LeafView { keys: ks, .. } = lv;
        assert(keys_sorted(ks)) by {
            assert(entries_sorted(le));
        }
        crate::sorted::lemma_lower_index_exists(le, k);
        let p = choose|p: int| is_lower_index(entry_keys(le), k, p);
        assert(entry_keys(le) == ks);
        let q = if excluded && p < ks.len() && ks[p] == k { p + 1 } else { p };
        // Entries of the leaf before `q` are below the bound, the rest above.
        assert forall|j: int| 0 <= j < off + q implies !above_lower(b, #[trigger] e[j].0) by {
            if j >= off {
                assert(le[j - off] == e[j]);
                assert(e[j].0 == ks[j - off]);
                if j - off < p {
                    assert(ks[j - off].rank() < k.rank());
                } else {
                    assert(excluded && ks[p] == k);
                }
            }
        }
        assert forall|j: int| off + q <= j < e.len() implies above_lower(b, #[trigger] e[j].0) by {
            if j < off + le.len() {
                assert(le[j - off] == e[j]);
                assert(e[j].0 == ks[j - off]);
                assert(k.rank() <= ks[j - off].rank());
                if excluded && ks[j - off].rank() == k.rank() {
                    K::lemma_rank_injective(ks[j - off], k);
                    assert(j - off == p) by {
                        if j - off > p {
                            assert(ks[p].rank() < ks[j - off].rank());
                            assert(k.rank() <= ks[p].rank());
                        }
                    }
                }
            }
        }
        assert(starts_at(e, b, off + q));
        let r = key_position(ns, self.root, h, k, excluded);
        if q < ks.len() {
            d
        } else {
            // The search moved past the leaf: to the next one, or past the end.
            assert(off + q == chain_offset(ns, l, d + 1));
            if d + 1 < l.len() {
                assert(lv.next == l[d + 1]);
                assert(ns.leaves.contains_key(l[d + 1]));
                self.leaf_arena.lemma_ids_below_slots(l[d + 1]);
                lemma_chain_index(ns, l, d + 1);
                d + 1
            } else {
                assert(lv.next == NULL_NODE);
                d
            }
        }
    }
}


/// Iterator over the entries of a key range, walking the linked leaves.
pub struct RangeIterator<'a, K, V> {
    tree: &'a GlobalCapacityBPlusTreeMap<K, V>,
    current_leaf_id: Option<NodeId>,
    current_leaf_ref: Option<&'a GlobalCapacityLeafNode<K, V>>,
    current_pos: usize,
    start_bound: KeyBound<K>,
    end_bound: KeyBound<K>,
    finished: bool,
    chain: Ghost<Seq<NodeId>>,
    leaf_pos: Ghost<int>,
}

impl<'a, K: TreeKey, V> RangeIterator<'a, K, V> {
    /// The tree walked.
    pub closed spec fn spec_tree(&self) -> &'a GlobalCapacityBPlusTreeMap<K, V> {
        self.tree
    }

    /// Whether iteration has ended.
    pub closed spec fn done(&self) -> bool {
        self.finished
    }

    /// The upper bound of the range.
    pub closed spec fn spec_end_bound(&self) -> KeyBound<K> {
        self.end_bound
    }

    /// Position of the next entry among the tree's entries.
    pub closed spec fn pos(&self) -> int {
        chain_offset(self.tree.views(), self.chain@, self.leaf_pos@) + self.current_pos
    }

    /// The cursor reads leaf `leaf_pos` of the tree's leaves, or stands
    /// past the last one.
    pub closed spec fn cursor_ok(&self) -> bool {
        let ns = self.tree.views();
        let l = self.chain@;
        let p = self.leaf_pos@;
        &&& self.tree.wf()
        &&& l == leaf_seq(ns, self.tree.root, self.tree.height@)
        &&& chain_ok(ns, l, NULL_NODE)
        &&& self.tree.entries() == chain_entries(ns, l).flatten()
        &&& 0 <= p <= l.len()
        &&& p < l.len() ==> {
            &&& self.current_leaf_ref == Some(&self.tree.leaf_arena@[l[p]])
            &&& self.current_pos <= ns.leaves[l[p]].keys.len()
        }
        &&& p == l.len() ==> self.current_leaf_ref is None && self.current_pos == 0
    }

    /// A live iterator has a sound cursor.
    pub closed spec fn valid(&self) -> bool {
        &&& self.tree.wf()
        &&& !self.finished ==> self.cursor_ok()
    }

    /// A live iterator's position lies within the tree's entries.
    pub proof fn lemma_pos_bounded(&self)
        requires
            self.valid(),
            !self.done(),
        ensures
            0 <= self.pos() <= self.spec_tree().entries().len(),
    {
        let ns = self.tree.views();
        let l = self.chain@;
        let p = self.leaf_pos@;
        lemma_chain_offset_ends(ns, l);
        if p < l.len() {
            lemma_chain_index(ns, l, p);
            assert(ns.leaves.contains_key(l[p]));
            lemma_zip(ns.leaves[l[p]].keys, ns.leaves[l[p]].values);
        }
    }

    /// Start at the first entry above `start_bound`.
    fn new(
        tree: &'a GlobalCapacityBPlusTreeMap<K, V>,
        start_bound: KeyBound<K>,
        end_bound: KeyBound<K>,
    ) -> (r: Self)
        requires
            tree.wf(),
        ensures
            r.valid(),
            !r.done(),
            r.spec_tree() == tree,
            r.spec_end_bound() == end_bound,
            starts_at(tree.entries(), start_bound, r.pos()),
    {
        let start_bound_ref = match &start_bound {
            KeyBound::Included(k) => KeyBound::Included(k),
            KeyBound::Excluded(k) => KeyBound::Excluded(k),
            KeyBound::Unbounded => KeyBound::Unbounded,
        };
        let (current_leaf_id, current_pos) = tree.find_range_start(&start_bound_ref);
        let ghost ns = tree.views();
        let ghost l = leaf_seq(ns, tree.root, tree.height@);
        let ghost e = tree.entries();
        proof {
            lemma_leaf_chain(ns, tree.root, tree.height@, None, None, NULL_NODE);
            lemma_chain_offset_ends(ns, l);
        }
        let ghost kk: int = match start_bound {
            KeyBound::Included(k) => tree.lemma_key_position(k, false),
            KeyBound::Excluded(k) => tree.lemma_key_position(k, true),
            KeyBound::Unbounded => 0,
        };
        let ghost leaf_pos: int = if current_leaf_id is Some { kk } else { l.len() as int };
        proof {
            if current_leaf_id is Some {
                assert(ns.leaves.contains_key(l[leaf_pos]));
            }
        }
        let current_leaf_ref = match current_leaf_id {
            Some(id) => tree.leaf_arena.get(id),
            None => None,
        };
        proof {
            if current_leaf_id is Some {
                assert(ns.leaves[l[leaf_pos]] == gc_lview(tree.leaf_arena@[l[leaf_pos]]));
            }
        }
        RangeIterator {
            tree,
            current_leaf_id,
            current_leaf_ref,
            current_pos,
            start_bound,
            end_bound,
            finished: false,
            chain: Ghost(l),
            leaf_pos: Ghost(leaf_pos),
        }
    }

    /// The next entry in key order if it lies below the end bound;
    /// otherwise iteration ends and every later call gives `None`.
    pub fn next(&mut self) -> (r: Option<(&'a K, &'a V)>)
        requires
            old(self).valid(),
        ensures
            final(self).valid(),
            final(self).spec_tree() == old(self).spec_tree(),
            final(self).spec_end_bound() == old(self).spec_end_bound(),
            old(self).done() ==> r is None && final(self).done(),
            !old(self).done() ==> ({
                let e = old(self).spec_tree().entries();
                let g = old(self).pos();
                if g < e.len() && below_upper(old(self).spec_end_bound(), e[g].0) {
                    &&& r is Some
                    &&& *r.unwrap().0 == e[g].0
                    &&& *r.unwrap().1 == e[g].1
                    &&& !final(self).done()
                    &&& final(self).pos() == g + 1
                } else {
                    r is None && final(self).done()
                }
            }),
    {
        if self.finished {
            return None;
        }
        let ghost g = self.pos();
        let ghost e = self.tree.entries();
        let ghost old_self = *self;
        loop
            invariant
                old_self == *old(self),
                !old_self.finished,
                g == old_self.pos(),
                self.cursor_ok(),
                !self.finished,
                self.pos() == g,
                e == self.tree.entries(),
                self.tree == old_self.tree,
                self.chain == old_self.chain,
                self.end_bound == old_self.end_bound,
            decreases self.chain@.len() - self.leaf_pos@,
        {
            let ghost l = self.chain@;
            let ghost p = self.leaf_pos@;
            let ghost ns = self.tree.views();
            proof {
                lemma_chain_offset_ends(ns, l);
                if p < l.len() {
                    lemma_chain_index(ns, l, p);
                    assert(ns.leaves.contains_key(l[p]));
                    assert(ns.leaves[l[p]] == gc_lview(self.tree.leaf_arena@[l[p]]));
                    lemma_zip(ns.leaves[l[p]].keys, ns.leaves[l[p]].values);
                }
            }
            let leaf = match self.current_leaf_ref {
                Some(leaf) => leaf,
                None => {
                    self.finished = true;
                    return None;
                },
            };
            if self.current_pos < leaf.len() {
                if let Some((key, value)) = leaf.get_pair(self.current_pos) {
                    proof {
                        let i = self.current_pos as int;
                        assert(leaf_entries(ns.leaves[l[p]])[i] == e[g]);
                    }
                    let should_stop = match &self.end_bound {
                        KeyBound::Included(end_key) => matches!(key.compare_key(end_key), KeyOrder::Greater),
                        KeyBound::Excluded(end_key) => !matches!(key.compare_key(end_key), KeyOrder::Less),
                        KeyBound::Unbounded => false,
                    };
                    if should_stop {
                        self.finished = true;
                        return None;
                    }
                    self.current_pos += 1;
                    return Some((key, value));
                }
            }
            let next_leaf_id = leaf.next();
            proof {
                if p + 1 < l.len() {
                    assert(ns.leaves.contains_key(l[p + 1]));
                    self.tree.leaf_arena.lemma_ids_below_slots(l[p + 1]);
                    lemma_chain_index(ns, l, p + 1);
                }
            }
            if next_leaf_id != NULL_NODE {
                self.current_leaf_id = Some(next_leaf_id);
                self.current_leaf_ref = self.tree.leaf_arena.get(next_leaf_id);
                self.current_pos = 0;
                proof {
                    self.leaf_pos@ = p + 1;
                    assert(ns.leaves[l[p + 1]] == gc_lview(self.tree.leaf_arena@[l[p + 1]]));
                }
                if self.current_leaf_ref.is_none() {
                    self.finished = true;
                    return None;
                }
            } else {
                self.finished = true;
                return None;
            }
        }
    }
}

impl<K: TreeKey, V> GlobalCapacityBPlusTreeMap<K, V> {
    /// An iterator over the entries whose keys lie within `start` and `end`.
    pub fn range(&self, start: KeyBound<K>, end: KeyBound<K>) -> (r: RangeIterator<'_, K, V>)
        requires
            self.wf(),
        ensures
            r.valid(),
            !r.done(),
            r.spec_tree() == self,
            r.spec_end_bound() == end,
            starts_at(self.entries(), start, r.pos()),
    {
        RangeIterator::new(self, start, end)
    }
}


/// Mapping the values of a map after an insertion maps the inserted value.
pub broadcast proof fn lemma_map_values_insert<A, B, C>(m: Map<A, B>, k: A, v: B, f: spec_fn(B) -> C)
    ensures
        #[trigger] m.insert(k, v).map_values(f) == m.map_values(f).insert(k, f(v)),
{
    assert(m.insert(k, v).map_values(f) =~= m.map_values(f).insert(k, f(v)));
}

/// Inserting the value a map already holds leaves the map as it is.
pub broadcast proof fn lemma_map_insert_same<A, B>(m: Map<A, B>, k: A)
    requires
        m.contains_key(k),
    ensures
        #[trigger] m.insert(k, m[k]) == m,
{
    assert(m.insert(k, m[k]) =~= m);
}

impl<K: TreeKey, V> GlobalCapacityBPlusTreeMap<K, V> {
    /// A mutable reference to the value of `key` in the leaf reached by
    /// descending toward it below `node`.
    fn get_mut_recursive<'a>(
        &'a mut self,
        node: &NodeRef<K, V>,
        key: &K,
        Ghost(h): Ghost<nat>,
        Ghost(lo): Ghost<Option<int>>,
        Ghost(hi): Ghost<Option<int>>,
        Ghost(after): Ghost<NodeId>,
    ) -> (r: Option<&'a mut V>)
        requires
            old(self).leaf_arena.wf(),
            old(self).branch_arena.wf(),
            wf_node(old(self).views(), *node, h, lo, hi, after),
            rank_in(key.rank(), lo, hi),
        ensures
            final(self).leaf_arena.wf(),
            final(self).leaf_arena.slot_count() == old(self).leaf_arena.slot_count(),
            final(self).branch_arena == old(self).branch_arena,
            final(self).capacity == old(self).capacity,
            final(self).root == old(self).root,
            final(self).height == old(self).height,
            forall|id: NodeId| #[trigger] final(self).leaf_arena@.contains_key(id) ==> old(self).leaf_arena@.contains_key(id)
                && final(self).leaf_arena@[id].spec_keys() == old(self).leaf_arena@[id].spec_keys(),
            ({
                let ns0 = old(self).views();
                let lid = descend_leaf(ns0, *node, h, *key);
                let lv = ns0.leaves[lid];
                let p = choose|p: int| is_lower_index(lv.keys, *key, p);
                &&& r is Some <==> lv.keys.contains(*key)
                &&& r is Some ==> {
                    &&& 0 <= p < lv.keys.len()
                    &&& lv.keys[p] == *key
                    &&& *r.unwrap() == lv.values[p]
                    &&& final(self).views() == with_value(ns0, lid, p, *final(r.unwrap()))
                }
                &&& r is None ==> final(self).views() == ns0
            }),
        decreases h,
    {
        let ghost ns0 = self.views();
        proof {
            broadcast use {lemma_map_values_insert, lemma_map_insert_same};
            lemma_wf_basic(ns0, *node, h, lo, hi, after);
        }
        match node {
            NodeRef::Leaf(id, _) => {
                let id = *id;
                let ghost lv = ns0.leaves[id];
                match self.leaf_arena.get_mut(id) {
                    Some(leaf) => {
                        proof {
                            assert(lv == gc_lview(*leaf));
                        }
                        match search_keys(leaf.keys(), key) {
                            Ok(pos) => {
                                proof {
                                    crate::sorted::lemma_lower_index_unique(lv.keys, *key, pos as int,
                                        choose|p: int| is_lower_index(lv.keys, *key, p));
                                }
                                leaf.get_value_mut(pos)
                            },
                            Err(_) => None,
                        }
                    },
                    None => None,
                }
            },
            NodeRef::Branch(id, _) => {
                proof {
                    lemma_locate(ns0, *node, h, lo, hi, after, *key);
                }
                let ghost b = ns0.branches[*id];
                let ghost i = child_pos(b.keys, *key);
                let child = match self.branch_arena.get(*id) {
                    Some(branch) => {
                        proof {
                            assert(b == gc_bview(*branch));
                        }
                        let child_index = branch.find_child_index(key);
                        match branch.get_child(child_index) {
                            Some(child) => *child,
                            None => {
                                return None;
                            },
                        }
                    },
                    None => {
                        return None;
                    },
                };
                self.get_mut_recursive(
                    &child,
                    key,
                    Ghost((h - 1) as nat),
                    Ghost(child_lo(b.keys, i, lo)),
                    Ghost(child_hi(b.keys, i, hi)),
                    Ghost(child_after(ns0, b.children, i, (h - 1) as nat, after)),
                )
            },
        }
    }

    /// A mutable reference to the value of `key`, if present. Writing
    /// through it sets the key's value in the tree.
    pub fn get_mut(&mut self, key: &K) -> (r: Option<&mut V>)
        requires
            old(self).wf(),
        ensures
            r is Some <==> old(self)@.contains_key(*key),
            r is Some ==> {
                &&& *r.unwrap() == old(self)@[*key]
                &&& final(self).wf()
                &&& final(self).spec_capacity() == old(self).spec_capacity()
                &&& final(self)@ == old(self)@.insert(*key, *final(r.unwrap()))
            },
            r is None ==> final(self).wf() && final(self).entries() == old(self).entries(),
    {
        let ghost ns0 = self.views();
        let ghost h = self.height@;
        let ghost c0 = self.entries();
        let ghost lid = descend_leaf(ns0, self.root, h, *key);
        let ghost p = choose|p: int| is_lower_index(ns0.leaves[lid].keys, *key, p);
        proof {
            self.lemma_entries_sorted();
            lemma_descend_has_key(ns0, self.root, h, None, None, NULL_NODE, *key);
        }
        let root = self.root;
        let r = self.get_mut_recursive(&root, key, Ghost(h), Ghost(None), Ghost(None), Ghost(NULL_NODE));
        proof {
            if r is Some {
                let v = *final(r.unwrap());
                lemma_value_set(ns0, root, h, None, None, NULL_NODE, *key, v, lid, p);
                crate::sorted::lemma_map_insert_entry(c0, *key, v);
                crate::sorted::lemma_map_get(c0, *key, ns0.leaves[lid].values[p]);
            }
        }
        r
    }
}

} // verus!
