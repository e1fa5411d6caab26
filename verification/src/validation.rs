//! Capacity validation, and consistency checks of a tree's nodes, leaf
//! chain and arenas.
use crate::error::{concat_str, decimal, decimal_string, BPlusTreeError, BTreeResult};
use crate::node::{BranchNode, LeafNode};
use crate::tree::BPlusTreeMap;
use crate::leaf_chain::{chain_ok, lemma_leaf_chain};
use crate::tree_spec::{child_after, child_hi, child_lo, leaf_seq, leaf_seqs_of, lemma_wf_branch_unfold, wf_node};
use crate::tree_structure::{branch_total, lemma_prefix_step};
use crate::types::{KeyOrder, NodeId, NodeRef, TreeKey, MIN_CAPACITY, NULL_NODE};
use vstd::prelude::*;

verus! {

/// Check that a node capacity is at least the minimum.
pub fn validate_capacity(capacity: usize) -> (r: BTreeResult<()>)
    ensures
        r is Ok <==> capacity >= MIN_CAPACITY,
        r is Err ==> r->Err_0 is InvalidCapacity,
{
    if capacity < MIN_CAPACITY {
        Err(BPlusTreeError::invalid_capacity(capacity, MIN_CAPACITY))
    } else {
        Ok(())
    }
}

/// A node capacity suited to the expected number of elements.
pub fn recommended_capacity(expected_elements: usize) -> (r: usize)
    ensures
        r == (if expected_elements < 100 {
            MIN_CAPACITY
        } else if expected_elements < 10_000 {
            16
        } else if expected_elements < 1_000_000 {
            32
        } else {
            64
        }),
{
    if expected_elements < 100 {
        MIN_CAPACITY
    } else if expected_elements < 10_000 {
        16
    } else if expected_elements < 1_000_000 {
        32
    } else {
        64
    }
}

/// Each key is strictly below the next one.
pub open spec fn adjacent_increasing<K: TreeKey>(s: Seq<K>) -> bool {
    forall|i: int| 1 <= i < s.len() ==> #[trigger] s[i - 1].rank() < s[i].rank()
}

/// Lower bound for child `i` of a branch with separators `keys`.
pub open spec fn child_min<K>(keys: Seq<K>, i: int, min: Option<K>) -> Option<K> {
    if i == 0 {
        min
    } else {
        Some(keys[i - 1])
    }
}

/// Upper bound for child `i` of a branch with separators `keys`.
pub open spec fn child_max<K>(keys: Seq<K>, i: int, max: Option<K>) -> Option<K> {
    if i == keys.len() {
        max
    } else {
        Some(keys[i])
    }
}

/// What the check of a leaf asks: one value per key, increasing keys, at
/// most `cap` keys, not underfull unless it is the root, and keys within
/// `min` (included) and `max` (excluded).
pub open spec fn leaf_checks<K: TreeKey, V>(
    l: LeafNode<K, V>,
    min: Option<K>,
    max: Option<K>,
    is_root: bool,
    cap: usize,
) -> bool {
    &&& l.keys@.len() == l.values@.len()
    &&& adjacent_increasing(l.keys@)
    &&& l.keys@.len() <= cap
    &&& (l.keys@.len() > 0 && l.keys@.len() < l.capacity / 2 ==> is_root)
    &&& (l.keys@.len() > 0 ==> (min matches Some(m) ==> m.rank() <= l.keys@[0].rank()))
    &&& (l.keys@.len() > 0 ==> (max matches Some(m) ==> l.keys@.last().rank() < m.rank()))
}

/// What the check of a branch node asks of the node itself: one more
/// child than keys, increasing keys, at most `cap` keys, not underfull
/// unless it is the root, and at least one child.
pub open spec fn branch_checks<K: TreeKey, V>(b: BranchNode<K, V>, is_root: bool, cap: usize) -> bool {
    &&& b.keys@.len() + 1 == b.children@.len()
    &&& adjacent_increasing(b.keys@)
    &&& b.keys@.len() <= cap
    &&& (b.keys@.len() > 0 && b.keys@.len() < b.capacity / 2 ==> is_root)
    &&& b.children@.len() > 0
}

/// Whether the subtree at `n`, of height `h`, passes the node checks, with
/// each child checked within the separators around it.
pub open spec fn node_checks<K: TreeKey, V>(
    la: Map<NodeId, LeafNode<K, V>>,
    ba: Map<NodeId, BranchNode<K, V>>,
    n: NodeRef<K, V>,
    h: nat,
    min: Option<K>,
    max: Option<K>,
    is_root: bool,
    cap: usize,
) -> bool
    decreases h, 0nat,
{
    match n {
        NodeRef::Leaf(id, _) => la.contains_key(id) && leaf_checks(la[id], min, max, is_root, cap),
        NodeRef::Branch(id, _) => h > 0 && ba.contains_key(id) && {
            let b = ba[id];
            &&& branch_checks(b, is_root, cap)
            &&& first_children_checks(la, ba, b.keys@, b.children@, (h - 1) as nat, min, max, cap, b.children@.len())
        },
    }
}

/// Whether the first `k` children pass the node checks within their
/// separators.
pub open spec fn first_children_checks<K: TreeKey, V>(
    la: Map<NodeId, LeafNode<K, V>>,
    ba: Map<NodeId, BranchNode<K, V>>,
    keys: Seq<K>,
    cs: Seq<NodeRef<K, V>>,
    ch: nat,
    min: Option<K>,
    max: Option<K>,
    cap: usize,
    k: nat,
) -> bool
    decreases ch, k + 1,
{
    if k == 0 || k > cs.len() {
        k == 0
    } else {
        first_children_checks(la, ba, keys, cs, ch, min, max, cap, (k - 1) as nat) && node_checks(
            la,
            ba,
            cs[k - 1],
            ch,
            child_min(keys, k - 1, min),
            child_max(keys, k - 1, max),
            false,
            cap,
        )
    }
}

/// The first children pass the checks exactly when each of them does.
pub proof fn lemma_first_children_checks<K: TreeKey, V>(
    la: Map<NodeId, LeafNode<K, V>>,
    ba: Map<NodeId, BranchNode<K, V>>,
    keys: Seq<K>,
    cs: Seq<NodeRef<K, V>>,
    ch: nat,
    min: Option<K>,
    max: Option<K>,
    cap: usize,
    k: nat,
)
    requires
        k <= cs.len(),
    ensures
        first_children_checks(la, ba, keys, cs, ch, min, max, cap, k) == forall|i: int|
            0 <= i < k ==> #[trigger] node_checks(
                la,
                ba,
                cs[i],
                ch,
                child_min(keys, i, min),
                child_max(keys, i, max),
                false,
                cap,
            ),
    decreases k,
{
    if k > 0 {
        lemma_first_children_checks(la, ba, keys, cs, ch, min, max, cap, (k - 1) as nat);
        let p = first_children_checks(la, ba, keys, cs, ch, min, max, cap, (k - 1) as nat);
        let q = node_checks(la, ba, cs[k - 1], ch, child_min(keys, k - 1, min), child_max(keys, k - 1, max), false, cap);
        assert(first_children_checks(la, ba, keys, cs, ch, min, max, cap, k) == (p && q));
        if p && q {
            assert forall|i: int| 0 <= i < k implies #[trigger] node_checks(
                la,
                ba,
                cs[i],
                ch,
                child_min(keys, i, min),
                child_max(keys, i, max),
                false,
                cap,
            ) by {
                if i < k - 1 {
                }
            }
        }
    }
}

/// The key a bound refers to.
pub open spec fn bound_key<K>(b: Option<&K>) -> Option<K> {
    match b {
        Some(k) => Some(*k),
        None => None,
    }
}

/// Whether keys strictly increase from one to the next.
fn keys_increasing<K: TreeKey>(keys: &Vec<K>) -> (r: bool)
    ensures
        r == adjacent_increasing(keys@),
{
    let mut i: usize = 1;
    while i < keys.len()
        invariant
            1 <= i,
            i <= keys@.len() || keys@.len() == 0,
            forall|j: int| 1 <= j < i && j < keys@.len() ==> #[trigger] keys@[j - 1].rank() < keys@[j].rank(),
        decreases keys@.len() - i,
    {
        if !matches!(keys[i - 1].compare_key(&keys[i]), KeyOrder::Less) {
            return false;
        }
        i = i + 1;
    }
    true
}

impl<K: TreeKey, V> BPlusTreeMap<K, V> {
    /// Check a leaf within the key bounds `min_key` (included) and
    /// `max_key` (excluded).
    fn check_leaf(&self, leaf: &LeafNode<K, V>, min_key: Option<&K>, max_key: Option<&K>, is_root: bool) -> (r: bool)
        ensures
            r == leaf_checks(*leaf, bound_key(min_key), bound_key(max_key), is_root, self.capacity),
    {
        if leaf.keys_len() != leaf.values_len() {
            return false;
        }
        if !keys_increasing(&leaf.keys) {
            return false;
        }
        if leaf.keys_len() > self.capacity {
            return false;
        }
        if !leaf.keys_is_empty() && leaf.is_underfull() {
            if !is_root {
                return false;
            }
        }
        match min_key {
            Some(min) => {
                if !leaf.keys_is_empty() {
                    match leaf.first_key() {
                        Some(first_key) => {
                            if matches!(first_key.compare_key(min), KeyOrder::Less) {
                                return false;
                            }
                        },
                        None => {},
                    }
                }
            },
            None => {},
        }
        match max_key {
            Some(max) => {
                if !leaf.keys_is_empty() {
                    match leaf.last_key() {
                        Some(last_key) => {
                            if !matches!(last_key.compare_key(max), KeyOrder::Less) {
                                return false;
                            }
                        },
                        None => {},
                    }
                }
            },
            None => {},
        }
        assert(leaf_checks(*leaf, bound_key(min_key), bound_key(max_key), is_root, self.capacity));
        true
    
    }

    /// Check the subtree at `node` within the key bounds `min_key`
    /// (included) and `max_key` (excluded).
    fn check_node_invariants(
        &self,
        node: &NodeRef<K, V>,
        min_key: Option<&K>,
        max_key: Option<&K>,
        is_root: bool,
        Ghost(h): Ghost<nat>,
        Ghost(lo): Ghost<Option<int>>,
        Ghost(hi): Ghost<Option<int>>,
        Ghost(after): Ghost<NodeId>,
    ) -> (r: bool)
        requires
            self.arenas_ok(),
            wf_node(self.views(), *node, h, lo, hi, after),
        ensures
            r == node_checks(
                self.leaf_arena@,
                self.branch_arena@,
                *node,
                h,
                bound_key(min_key),
                bound_key(max_key),
                is_root,
                self.capacity,
            ),
        decreases h,
    {
        let ghost ns = self.views();
        match node {
            NodeRef::Leaf(id, _) => {
                match self.get_leaf(*id) {
                    Some(leaf) => self.check_leaf(leaf, min_key, max_key, is_root),
                    None => false,
                }
            },
            NodeRef::Branch(id, _) => {
                proof {
                    lemma_wf_branch_unfold(ns, *node, h, lo, hi, after);
                }
                match self.get_branch(*id) {
                    Some(branch) => {
                        proof {
                            assert(ns.branches[*id] == crate::tree::bview(*branch));
                            assert(branch.children@.len() == branch.keys@.len() + 1);
                            assert(branch.children@.len() == branch.children.len());
                        }
                        if branch.keys.len() + 1 != branch.children.len() {
                            return false;
                        }
                        if !keys_increasing(&branch.keys) {
                            return false;
                        }
                        if branch.keys.len() > self.capacity {
                            return false;
                        }
                        if !branch.keys.is_empty() && branch.is_underfull() {
                            if !is_root {
                                return false;
                            }
                        }
                        if branch.children.len() == 0 {
                            return false;
                        }
                        let ghost ch = (h - 1) as nat;
                        let ghost b = ns.branches[*id];
                        proof {
                            assert(b.children == branch.children@);
                            assert(b.keys == branch.keys@);
                            crate::tree_spec::lemma_wf_first_children(ns, b.keys, b.children, ch, lo, hi, after,
                                b.children.len());
                        }
                        let mut i: usize = 0;
                        while i < branch.children.len()
                            invariant
                                self.arenas_ok(),
                                ns == self.views(),
                                *node is Branch,
                                node.spec_id() == *id,
                                self.branch_arena@.contains_key(*id),
                                branch_checks(*branch, is_root, self.capacity),
                                h > 0,
                                ch == (h - 1) as nat,
                                *branch == self.branch_arena@[*id],
                                b.children == branch.children@,
                                b.keys == branch.keys@,
                                branch.keys@.len() + 1 == branch.children@.len(),
                                forall|j: int| 0 <= j < b.children.len() ==> #[trigger] wf_node(ns, b.children[j], ch,
                                    child_lo(b.keys, j, lo), child_hi(b.keys, j, hi), child_after(ns, b.children, j, ch, after)),
                                i <= branch.children@.len(),
                                forall|j: int|
                                    0 <= j < i ==> #[trigger] node_checks(
                                        self.leaf_arena@,
                                        self.branch_arena@,
                                        branch.children@[j],
                                        ch,
                                        child_min(branch.keys@, j, bound_key(min_key)),
                                        child_max(branch.keys@, j, bound_key(max_key)),
                                        false,
                                        self.capacity,
                                    ),
                            decreases branch.children@.len() - i,
                        {
                            let child_min_key = if i == 0 {
                                min_key
                            } else {
                                Some(&branch.keys[i - 1])
                            };
                            let child_max_key = if i == branch.keys.len() {
                                max_key
                            } else {
                                Some(&branch.keys[i])
                            };
                            proof {
                                assert(bound_key(child_min_key) == child_min(branch.keys@, i as int, bound_key(min_key)));
                                assert(bound_key(child_max_key) == child_max(branch.keys@, i as int, bound_key(max_key)));
                                assert(wf_node(ns, b.children[i as int], ch, child_lo(b.keys, i as int, lo),
                                    child_hi(b.keys, i as int, hi), child_after(ns, b.children, i as int, ch, after)));
                            }
                            let ok = self.check_node_invariants(
                                &branch.children[i],
                                child_min_key,
                                child_max_key,
                                false,
                                Ghost(ch),
                                Ghost(child_lo(b.keys, i as int, lo)),
                                Ghost(child_hi(b.keys, i as int, hi)),
                                Ghost(child_after(ns, b.children, i as int, ch, after)),
                            );
                            if !ok {
                                proof {
                                    lemma_first_children_checks(self.leaf_arena@, self.branch_arena@, branch.keys@,
                                        branch.children@, ch, bound_key(min_key), bound_key(max_key), self.capacity,
                                        branch.children@.len());
                                }
                                return false;
                            }
                            i = i + 1;
                        }
                        proof {
                            lemma_first_children_checks(self.leaf_arena@, self.branch_arena@, branch.keys@, branch.children@,
                                ch, bound_key(min_key), bound_key(max_key), self.capacity, branch.children@.len());
                        }
                        true
                    },
                    None => false,
                }
            },
        }
    }

    /// Whether every node passes the node checks: the root without a lower
    /// occupancy limit, every other node within the separators above it.
    pub fn check_invariants(&self) -> (r: bool)
        requires
            self.wf(),
        ensures
            r == node_checks(self.leaf_arena@, self.branch_arena@, self.root, self.height@, None, None, true, self.capacity),
    {
        self.check_node_invariants(&self.root, None, None, true, Ghost(self.height@), Ghost(None), Ghost(None),
            Ghost(crate::types::NULL_NODE))
    }

    /// Gather the ids of the leaves below `node`, left to right.
    fn collect_leaf_ids(
        &self,
        node: &NodeRef<K, V>,
        ids: &mut Vec<NodeId>,
        Ghost(h): Ghost<nat>,
        Ghost(lo): Ghost<Option<int>>,
        Ghost(hi): Ghost<Option<int>>,
        Ghost(after): Ghost<NodeId>,
    )
        requires
            self.arenas_ok(),
            wf_node(self.views(), *node, h, lo, hi, after),
        ensures
            final(ids)@ == old(ids)@ + leaf_seq(self.views(), *node, h),
        decreases h,
    {
        let ghost ns = self.views();
        match node {
            NodeRef::Leaf(id, _) => {
                ids.push(*id);
            },
            NodeRef::Branch(id, _) => {
                proof {
                    lemma_wf_branch_unfold(ns, *node, h, lo, hi, after);
                }
                match self.get_branch(*id) {
                    Some(branch) => {
                        let ghost ch = (h - 1) as nat;
                        let ghost b = ns.branches[*id];
                        let ghost start = ids@;
                        proof {
                            assert(b.children == branch.children@);
                        }
                        let mut i: usize = 0;
                        while i < branch.children.len()
                            invariant
                                self.arenas_ok(),
                                ns == self.views(),
                                b == ns.branches[*id],
                                b.children == branch.children@,
                                h > 0,
                                ch == (h - 1) as nat,
                                crate::tree_spec::wf_branch(ns, b, ch, lo, hi, after, *node),
                                leaf_seq(ns, *node, h) == leaf_seqs_of(ns, b.children, ch).flatten(),
                                i <= branch.children@.len(),
                                ids@ == start + leaf_seqs_of(ns, b.children.subrange(0, i as int), ch).flatten(),
                            decreases branch.children@.len() - i,
                        {
                            proof {
                                lemma_prefix_step(ns, b.children, ch, i as int);
                                assert(wf_node(ns, b.children[i as int], ch, child_lo(b.keys, i as int, lo),
                                    child_hi(b.keys, i as int, hi), child_after(ns, b.children, i as int, ch, after)));
                            }
                            self.collect_leaf_ids(&branch.children[i], ids, Ghost(ch), Ghost(child_lo(b.keys, i as int, lo)),
                                Ghost(child_hi(b.keys, i as int, hi)), Ghost(child_after(ns, b.children, i as int, ch, after)));
                            i = i + 1;
                        }
                        proof {
                            assert(b.children.subrange(0, i as int) =~= b.children);
                        }
                    },
                    None => {},
                }
            },
        }
    }

    /// Gather the number of keys of each leaf below `node`, left to right.
    fn collect_leaf_sizes(
        &self,
        node: &NodeRef<K, V>,
        sizes: &mut Vec<usize>,
        Ghost(h): Ghost<nat>,
        Ghost(lo): Ghost<Option<int>>,
        Ghost(hi): Ghost<Option<int>>,
        Ghost(after): Ghost<NodeId>,
    )
        requires
            self.arenas_ok(),
            wf_node(self.views(), *node, h, lo, hi, after),
        ensures
            final(sizes)@ == old(sizes)@ + leaf_sizes_of(self.leaf_arena@, leaf_seq(self.views(), *node, h)),
        decreases h,
    {
        let ghost ns = self.views();
        match node {
            NodeRef::Leaf(id, _) => {
                match self.get_leaf(*id) {
                    Some(leaf) => {
                        sizes.push(leaf.keys_len());
                        proof {
                            assert(leaf_sizes_of(self.leaf_arena@, leaf_seq(ns, *node, h)) =~= seq![leaf.keys@.len() as usize]);
                        }
                    },
                    None => {},
                }
            },
            NodeRef::Branch(id, _) => {
                proof {
                    lemma_wf_branch_unfold(ns, *node, h, lo, hi, after);
                }
                match self.get_branch(*id) {
                    Some(branch) => {
                        let ghost ch = (h - 1) as nat;
                        let ghost b = ns.branches[*id];
                        let ghost start = sizes@;
                        proof {
                            assert(b.children == branch.children@);
                        }
                        let mut i: usize = 0;
                        while i < branch.children.len()
                            invariant
                                self.arenas_ok(),
                                ns == self.views(),
                                b == ns.branches[*id],
                                b.children == branch.children@,
                                h > 0,
                                ch == (h - 1) as nat,
                                crate::tree_spec::wf_branch(ns, b, ch, lo, hi, after, *node),
                                leaf_seq(ns, *node, h) == leaf_seqs_of(ns, b.children, ch).flatten(),
                                i <= branch.children@.len(),
                                sizes@ == start + leaf_sizes_of(self.leaf_arena@, leaf_seqs_of(ns, b.children.subrange(0, i as int), ch).flatten()),
                            decreases branch.children@.len() - i,
                        {
                            proof {
                                lemma_prefix_step(ns, b.children, ch, i as int);
                                assert(wf_node(ns, b.children[i as int], ch, child_lo(b.keys, i as int, lo),
                                    child_hi(b.keys, i as int, hi), child_after(ns, b.children, i as int, ch, after)));
                                lemma_leaf_sizes_add(self.leaf_arena@,
                                    leaf_seqs_of(ns, b.children.subrange(0, i as int), ch).flatten(),
                                    leaf_seq(ns, b.children[i as int], ch));
                            }
                            self.collect_leaf_sizes(&branch.children[i], sizes, Ghost(ch), Ghost(child_lo(b.keys, i as int, lo)),
                                Ghost(child_hi(b.keys, i as int, hi)), Ghost(child_after(ns, b.children, i as int, ch, after)));
                            i = i + 1;
                        }
                        proof {
                            assert(b.children.subrange(0, i as int) =~= b.children);
                        }
                    },
                    None => {},
                }
            },
        }
    }

    /// Every leaf of the tree is on the linked list, in the same order.
    fn check_leaf_linked_list_completeness(&self) -> (r: BTreeResult<()>)
        requires
            self.wf(),
        ensures
            r is Ok,
    {
        let ghost ns = self.views();
        let ghost l = leaf_seq(ns, self.root, self.height@);
        let mut tree_leaf_ids: Vec<NodeId> = Vec::new();
        self.collect_leaf_ids(&self.root, &mut tree_leaf_ids, Ghost(self.height@), Ghost(None), Ghost(None),
            Ghost(NULL_NODE));
        proof {
            lemma_leaf_chain(ns, self.root, self.height@, None, None, NULL_NODE);
            assert(tree_leaf_ids@ =~= l);
        }
        let mut linked_list_ids: Vec<NodeId> = Vec::new();
        let mut current_id = self.get_first_leaf_id();
        let ghost mut j: int = 0;
        loop
            invariant_except_break
                current_id == (if j < l.len() {
                    Some(l[j])
                } else {
                    None::<NodeId>
                }),
            invariant
                self.wf(),
                ns == self.views(),
                l == leaf_seq(ns, self.root, self.height@),
                chain_ok(ns, l, NULL_NODE),
                l.len() > 0,
                0 <= j <= l.len(),
                linked_list_ids@ == l.subrange(0, j),
            ensures
                linked_list_ids@ == l,
            decreases l.len() - j,
        {
            match current_id {
                Some(id) => {
                    linked_list_ids.push(id);
                    proof {
                        assert(ns.leaves.contains_key(l[j]));
                        assert(ns.leaves[l[j]] == crate::tree::lview(self.leaf_arena@[l[j]]));
                        if j + 1 < l.len() {
                            assert(ns.leaves.contains_key(l[j + 1]));
                            self.leaf_arena.lemma_ids_below_slots(l[j + 1]);
                        }
                        assert(l.subrange(0, j + 1) =~= l.subrange(0, j).push(l[j]));
                        j = j + 1;
                    }
                    match self.get_leaf(id) {
                        Some(leaf) => {
                            current_id = if leaf.next != NULL_NODE {
                                Some(leaf.next)
                            } else {
                                None
                            };
                        },
                        None => {
                            break;
                        },
                    }
                },
                None => {
                    proof {
                        assert(l.subrange(0, l.len() as int) =~= l);
                    }
                    break;
                },
            }
        }
        if !same_ids(&tree_leaf_ids, &linked_list_ids) {
            let a = ids_debug_string(&tree_leaf_ids);
            let b = ids_debug_string(&linked_list_ids);
            let c = concat_str("tree has ", a.as_str());
            let d = concat_str(c.as_str(), ", linked list has ");
            let details = concat_str(d.as_str(), b.as_str());
            return Err(BPlusTreeError::corrupted_tree("Linked list", details.as_str()));
        }
        Ok(())
    }

    /// The number of leaves and branches reachable from the root matches
    /// the number of nodes the arenas hold, and the leaves are all linked.
    fn check_arena_tree_consistency(&self) -> (r: BTreeResult<()>)
        requires
            self.wf(),
            leaf_seq(self.views(), self.root, self.height@).len() <= usize::MAX,
            branch_total(self.views(), self.root, self.height@) <= usize::MAX,
        ensures
            r is Ok <==> self.arenas_match_tree(),
            r is Err ==> r->Err_0 is ArenaError,
    {
        let (tree_leaf_count, tree_branch_count) = self.count_nodes_in_tree();
        let leaf_allocated = self.allocated_leaf_count();
        let branch_allocated = self.allocated_branch_count();
        if tree_leaf_count != leaf_allocated {
            let details = in_tree_vs_arena(tree_leaf_count, leaf_allocated);
            return Err(BPlusTreeError::arena_error("Leaf consistency check", details.as_str()));
        }
        if tree_branch_count != branch_allocated {
            let details = in_tree_vs_arena(tree_branch_count, branch_allocated);
            return Err(BPlusTreeError::arena_error("Branch consistency check", details.as_str()));
        }
        self.check_leaf_linked_list_completeness()
    }

    /// The arenas hold exactly the nodes reachable from the root.
    pub open spec fn arenas_match_tree(&self) -> bool {
        &&& leaf_seq(self.views(), self.root, self.height@).len() == self.leaf_arena.slot_count()
            - self.leaf_arena.free_ids().len()
        &&& branch_total(self.views(), self.root, self.height@) == self.branch_arena.slot_count()
            - self.branch_arena.free_ids().len()
    }

    /// The keys read through the key iterator are increasing and as many as
    /// the tree holds.
    fn check_linked_list_invariants(&self) -> (r: Result<(), String>)
        requires
            self.wf(),
            self.entries().len() <= usize::MAX,
        ensures
            r is Ok,
    {
        let ghost e = self.entries();
        let mut it = self.keys();
        let mut keys: Vec<&K> = Vec::new();
        loop
            invariant_except_break
                !it.items().done(),
                0 <= it.items().pos() <= e.len(),
                keys@.len() == it.items().pos(),
            invariant
                e == self.entries(),
                e.len() <= usize::MAX,
                it.items().valid(),
                it.items().spec_tree() == self,
                forall|k: K| it.items().before_end(k),
                forall|j: int| 0 <= j < keys@.len() ==> *#[trigger] keys@[j] == e[j].0,
            ensures
                keys@.len() == e.len(),
            decreases e.len() - it.items().pos(),
        {
            match it.next() {
                Some(k) => {
                    keys.push(k);
                    proof {
                        it.items().lemma_pos_bounded();
                    }
                },
                None => {
                    break;
                },
            }
        }
        proof {
            self.lemma_entries_sorted();
        }
        let mut i: usize = 1;
        while i < keys.len()
            invariant
                e == self.entries(),
                crate::sorted::entries_sorted(e),
                keys@.len() == e.len(),
                forall|j: int| 0 <= j < keys@.len() ==> *#[trigger] keys@[j] == e[j].0,
                1 <= i,
            decreases keys@.len() - i,
        {
            proof {
                assert(e[i - 1].0.rank() < e[i as int].0.rank());
            }
            if !matches!(keys[i - 1].compare_key(keys[i]), KeyOrder::Less) {
                let n = decimal_string(i);
                return Err(concat_str("Iterator returned unsorted keys at index ", n.as_str()));
            }
            i = i + 1;
        }
        let len = self.len();
        if keys.len() != len {
            let a = decimal_string(keys.len());
            let b = decimal_string(len);
            let c = concat_str("Iterator returned ", a.as_str());
            let d = concat_str(c.as_str(), " keys but tree has ");
            let f = concat_str(d.as_str(), b.as_str());
            return Err(concat_str(f.as_str(), " items"));
        }
        Ok(())
    }

    /// Check the nodes, the linked leaves and the arenas, with an error
    /// message for the first failed check.
    pub fn check_invariants_detailed(&self) -> (r: Result<(), String>)
        requires
            self.wf(),
            self.entries().len() <= usize::MAX,
            leaf_seq(self.views(), self.root, self.height@).len() <= usize::MAX,
            branch_total(self.views(), self.root, self.height@) <= usize::MAX,
        ensures
            r is Ok <==> self.check_invariants_spec() && self.arenas_match_tree(),
            !self.check_invariants_spec() ==> r is Err && r->Err_0@ == "Tree invariants violated"@,
    {
        if !self.check_node_invariants(&self.root, None, None, true, Ghost(self.height@), Ghost(None), Ghost(None),
            Ghost(NULL_NODE)) {
            return Err(String::from_str("Tree invariants violated"));
        }
        match self.check_linked_list_invariants() {
            Ok(()) => {},
            Err(e) => {
                return Err(e);
            },
        }
        match self.check_arena_tree_consistency() {
            Ok(()) => Ok(()),
            Err(e) => Err(e.to_string()),
        }
    }

    /// What `check_invariants` computes.
    pub open spec fn check_invariants_spec(&self) -> bool {
        node_checks(self.leaf_arena@, self.branch_arena@, self.root, self.height@, None, None, true, self.capacity)
    }

    /// Check the tree as `check_invariants_detailed` does.
    pub fn validate(&self) -> (r: Result<(), String>)
        requires
            self.wf(),
            self.entries().len() <= usize::MAX,
            leaf_seq(self.views(), self.root, self.height@).len() <= usize::MAX,
            branch_total(self.views(), self.root, self.height@) <= usize::MAX,
        ensures
            r is Ok <==> self.check_invariants_spec() && self.arenas_match_tree(),
            !self.check_invariants_spec() ==> r is Err && r->Err_0@ == "Tree invariants violated"@,
    {
        self.check_invariants_detailed()
    }

    /// Check the tree before an operation; a failed check is reported as a
    /// data integrity error of that operation.
    pub fn validate_for_operation(&self, operation: &str) -> (r: BTreeResult<()>)
        requires
            self.wf(),
            self.entries().len() <= usize::MAX,
            leaf_seq(self.views(), self.root, self.height@).len() <= usize::MAX,
            branch_total(self.views(), self.root, self.height@) <= usize::MAX,
        ensures
            r is Ok <==> self.check_invariants_spec() && self.arenas_match_tree(),
            r is Err ==> r->Err_0 is DataIntegrityError,
    {
        match self.check_invariants_detailed() {
            Ok(()) => Ok(()),
            Err(e) => {
                let a = concat_str("Validation for ", operation);
                let b = concat_str(a.as_str(), ": ");
                let details = concat_str(b.as_str(), e.as_str());
                Err(BPlusTreeError::data_integrity(operation, details.as_str()))
            },
        }
    }

    /// All items in key order.
    pub fn slice(&self) -> (r: Vec<(&K, &V)>)
        requires
            self.wf(),
        ensures
            r@.len() == self.entries().len(),
            forall|j: int| 0 <= j < r@.len() ==> *(#[trigger] r@[j]).0 == self.entries()[j].0 && *r@[j].1
                == self.entries()[j].1,
    {
        let ghost e = self.entries();
        let mut it = self.items();
        let mut out: Vec<(&K, &V)> = Vec::new();
        loop
            invariant
                e == self.entries(),
                it.valid(),
                it.spec_tree() == self,
                !it.done(),
                forall|k: K| it.before_end(k),
                0 <= it.pos() <= e.len(),
                out@.len() == it.pos(),
                forall|j: int| 0 <= j < out@.len() ==> *(#[trigger] out@[j]).0 == e[j].0 && *out@[j].1 == e[j].1,
            decreases e.len() - it.pos(),
        {
            match it.next() {
                Some(item) => {
                    out.push(item);
                    proof {
                        it.lemma_pos_bounded();
                    }
                },
                None => {
                    return out;
                },
            }
        }
    }

    /// The sizes of the leaves add up to the number of entries.
    pub proof fn lemma_leaf_sizes_sum(&self)
        requires
            self.wf(),
        ensures
            sum_of(leaf_sizes_of(self.leaf_arena@, leaf_seq(self.views(), self.root, self.height@))) == self.entries().len(),
    {
        let ns = self.views();
        let l = leaf_seq(ns, self.root, self.height@);
        lemma_leaf_chain(ns, self.root, self.height@, None, None, NULL_NODE);
        crate::leaf_chain::lemma_chain_offset_ends(ns, l);
        assert forall|i: int| 0 <= i < l.len() implies #[trigger] ns.leaves[l[i]].keys == self.leaf_arena@[l[i]].keys@
            && self.leaf_arena@[l[i]].keys@.len() <= usize::MAX by {
            assert(ns.leaves.contains_key(l[i]));
            assert(self.leaf_arena@.contains_key(l[i]));
        }
        lemma_sizes_prefix(self.leaf_arena@, ns, l, l.len() as int);
        assert(leaf_sizes_of(self.leaf_arena@, l).subrange(0, l.len() as int) =~= leaf_sizes_of(self.leaf_arena@, l));
    }

    /// The number of keys of each leaf, left to right.
    pub fn leaf_sizes(&self) -> (r: Vec<usize>)
        requires
            self.wf(),
        ensures
            r@ == leaf_sizes_of(self.leaf_arena@, leaf_seq(self.views(), self.root, self.height@)),
    {
        let mut sizes: Vec<usize> = Vec::new();
        self.collect_leaf_sizes(&self.root, &mut sizes, Ghost(self.height@), Ghost(None), Ghost(None), Ghost(NULL_NODE));
        proof {
            assert(sizes@ =~= leaf_sizes_of(self.leaf_arena@, leaf_seq(self.views(), self.root, self.height@)));
        }
        sizes
    }
}

/// The number of keys of each of the leaves `l`.
pub open spec fn leaf_sizes_of<K, V>(la: Map<NodeId, LeafNode<K, V>>, l: Seq<NodeId>) -> Seq<usize> {
    l.map_values(|id: NodeId| la[id].keys@.len() as usize)
}

/// The sum of a sequence of sizes.
pub open spec fn sum_of(s: Seq<usize>) -> int
    decreases s.len(),
{
    if s.len() == 0 {
        0
    } else {
        sum_of(s.drop_last()) + s.last()
    }
}

/// The sizes of the first `k` leaves of a chain add up to the number of
/// entries before leaf `k`.
proof fn lemma_sizes_prefix<K, V>(
    la: Map<NodeId, LeafNode<K, V>>,
    ns: crate::tree_spec::NodeViews<K, V>,
    l: Seq<NodeId>,
    k: int,
)
    requires
        0 <= k <= l.len(),
        forall|i: int| 0 <= i < l.len() ==> #[trigger] ns.leaves[l[i]].keys == la[l[i]].keys@ && la[l[i]].keys@.len()
            <= usize::MAX,
    ensures
        sum_of(leaf_sizes_of(la, l).subrange(0, k)) == crate::leaf_chain::chain_offset(ns, l, k),
    decreases k,
{
    let s = leaf_sizes_of(la, l);
    if k == 0 {
        crate::leaf_chain::lemma_chain_offset_ends(ns, l);
        assert(s.subrange(0, 0) =~= Seq::<usize>::empty());
    } else {
        lemma_sizes_prefix(la, ns, l, k - 1);
        crate::leaf_chain::lemma_chain_index(ns, l, k - 1);
        assert(s.subrange(0, k).drop_last() =~= s.subrange(0, k - 1));
        assert(s.subrange(0, k).last() == s[k - 1]);
        assert(ns.leaves[l[k - 1]].keys == la[l[k - 1]].keys@);
    }
}

/// Sizes of two runs of leaves are the sizes of each run in turn.
proof fn lemma_leaf_sizes_add<K, V>(la: Map<NodeId, LeafNode<K, V>>, a: Seq<NodeId>, b: Seq<NodeId>)
    ensures
        leaf_sizes_of(la, a + b) == leaf_sizes_of(la, a) + leaf_sizes_of(la, b),
{
    assert(leaf_sizes_of(la, a + b) =~= leaf_sizes_of(la, a) + leaf_sizes_of(la, b));
}

/// Whether two id lists are the same.
fn same_ids(a: &Vec<NodeId>, b: &Vec<NodeId>) -> (r: bool)
    ensures
        r == (a@ == b@),
{
    if a.len() != b.len() {
        return false;
    }
    let mut i: usize = 0;
    while i < a.len()
        invariant
            a@.len() == b@.len(),
            i <= a@.len(),
            forall|j: int| 0 <= j < i ==> a@[j] == b@[j],
        decreases a@.len() - i,
    {
        if a[i] != b[i] {
            return false;
        }
        i = i + 1;
    }
    proof {
        assert(a@ =~= b@);
    }
    true
}

/// "`a` in tree vs `b` in arena".
fn in_tree_vs_arena(a: usize, b: usize) -> (r: String)
    ensures
        r@ == decimal(a as nat) + " in tree vs "@ + decimal(b as nat) + " in arena"@,
{
    let sa = decimal_string(a);
    let sb = decimal_string(b);
    let c = concat_str(sa.as_str(), " in tree vs ");
    let d = concat_str(c.as_str(), sb.as_str());
    concat_str(d.as_str(), " in arena")
}

/// The ids in decimal, separated by a comma and a space.
pub open spec fn ids_joined(ids: Seq<NodeId>) -> Seq<char>
    decreases ids.len(),
{
    if ids.len() == 0 {
        Seq::empty()
    } else if ids.len() == 1 {
        decimal(ids[0] as nat)
    } else {
        ids_joined(ids.drop_last()) + ", "@ + decimal(ids.last() as nat)
    }
}

/// The debug text of a list of node ids, as `format!` writes it: the ids
/// in decimal, separated by a comma and a space, within square brackets.
pub open spec fn ids_debug(ids: Seq<NodeId>) -> Seq<char> {
    "["@ + ids_joined(ids) + "]"@
}

/// The debug text of a list of node ids, built with `format!`.
#[verifier::external_body]
fn ids_debug_string(ids: &Vec<NodeId>) -> (r: String)
    ensures
        r@ == ids_debug(ids@),
{
    format!("{:?}", ids)
}

} // verus!
