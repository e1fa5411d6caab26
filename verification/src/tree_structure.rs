//! Structure queries on the arena tree: sizes, counts, the first leaf,
//! child lookup, and clearing.
use crate::compact_arena::CompactArena;
use crate::node::{BranchNode, LeafNode};
use crate::sorted::{child_pos, keys_sorted};
use crate::tree::BPlusTreeMap;
use crate::tree_spec::{
    child_after, child_hi, child_lo, children_contents, children_leaf_seq, content,
    lemma_children_contents, lemma_first_leaf, lemma_wf_basic, lemma_wf_branch_unfold,
    leaf_seq, leaf_seqs_of, wf_node, NodeViews,
};
use crate::types::{NodeId, NodeRef, TreeKey, NULL_NODE};
use std::marker::PhantomData;
use vstd::prelude::*;

verus! {

/// The number of branches in a subtree.
pub open spec fn branch_total<K, V>(ns: NodeViews<K, V>, n: NodeRef<K, V>, h: nat) -> nat
    decreases h, 0nat,
{
    match n {
        NodeRef::Leaf(_, _) => 0,
        NodeRef::Branch(id, _) => if h > 0 && ns.branches.contains_key(id) {
            1 + children_branch_total(ns, ns.branches[id].children, (h - 1) as nat)
        } else {
            0
        },
    }
}

/// The number of branches in a sequence of subtrees.
pub open spec fn children_branch_total<K, V>(ns: NodeViews<K, V>, cs: Seq<NodeRef<K, V>>, h: nat) -> nat
    decreases h, cs.len() + 1,
{
    if cs.len() == 0 {
        0
    } else {
        children_branch_total(ns, cs.drop_last(), h) + branch_total(ns, cs.last(), h)
    }
}

/// Flattening a sequence with one more part appended.
proof fn lemma_flatten_push<A>(ss: Seq<Seq<A>>, x: Seq<A>)
    ensures
        ss.push(x).flatten() == ss.flatten() + x,
{
    crate::flatten::lemma_flatten_add(ss, seq![x]);
    crate::flatten::lemma_flatten_one(x);
    assert(ss.push(x) =~= ss + seq![x]);
}

/// The contents and leaves of the first `i + 1` children extend those of
/// the first `i`, and never exceed those of all children.
pub(crate) proof fn lemma_prefix_step<K, V>(ns: NodeViews<K, V>, cs: Seq<NodeRef<K, V>>, h: nat, i: int)
    requires
        0 <= i < cs.len(),
    ensures
        children_contents(ns, cs.subrange(0, i + 1), h).flatten() == children_contents(ns, cs.subrange(0, i), h).flatten()
            + content(ns, cs[i], h),
        leaf_seqs_of(ns, cs.subrange(0, i + 1), h).flatten() == leaf_seqs_of(ns, cs.subrange(0, i), h).flatten()
            + leaf_seq(ns, cs[i], h),
        children_branch_total(ns, cs.subrange(0, i + 1), h) == children_branch_total(ns, cs.subrange(0, i), h)
            + branch_total(ns, cs[i], h),
        children_contents(ns, cs.subrange(0, i + 1), h).flatten().len() <= children_contents(ns, cs, h).flatten().len(),
        leaf_seqs_of(ns, cs.subrange(0, i + 1), h).flatten().len() <= leaf_seqs_of(ns, cs, h).flatten().len(),
{
    let p = cs.subrange(0, i + 1);
    assert(p.drop_last() =~= cs.subrange(0, i));
    assert(p.last() == cs[i]);
    lemma_flatten_push(children_contents(ns, cs.subrange(0, i), h), content(ns, cs[i], h));
    lemma_flatten_push(leaf_seqs_of(ns, cs.subrange(0, i), h), leaf_seq(ns, cs[i], h));
    lemma_children_contents(ns, cs, h);
    lemma_children_contents(ns, p, h);
    lemma_children_contents(ns, cs.subrange(i + 1, cs.len() as int), h);
    assert(children_contents(ns, cs, h) =~= children_contents(ns, p, h) + children_contents(ns, cs.subrange(i + 1, cs.len() as int), h));
    assert(leaf_seqs_of(ns, cs, h) =~= leaf_seqs_of(ns, p, h) + leaf_seqs_of(ns, cs.subrange(i + 1, cs.len() as int), h));
    crate::flatten::lemma_flatten_add(children_contents(ns, p, h), children_contents(ns, cs.subrange(i + 1, cs.len() as int), h));
    crate::flatten::lemma_flatten_add(leaf_seqs_of(ns, p, h), leaf_seqs_of(ns, cs.subrange(i + 1, cs.len() as int), h));
}

impl<K: TreeKey, V> BPlusTreeMap<K, V> {
    /// Number of entries below `node`.
    fn len_recursive(&self, node: &NodeRef<K, V>, Ghost(h): Ghost<nat>, Ghost(lo): Ghost<Option<int>>,
        Ghost(hi): Ghost<Option<int>>, Ghost(after): Ghost<NodeId>) -> (r: usize)
        requires
            self.arenas_ok(),
            wf_node(self.views(), *node, h, lo, hi, after),
            content(self.views(), *node, h).len() <= usize::MAX,
        ensures
            r == content(self.views(), *node, h).len(),
        decreases h,
    {
        let ghost ns = self.views();
        match node {
            NodeRef::Leaf(id, _) => match self.get_leaf(*id) {
                Some(leaf) => leaf.len(),
                None => 0,
            },
            NodeRef::Branch(id, _) => match self.get_branch(*id) {
                Some(branch) => {
                    let ghost ch = (h - 1) as nat;
                    let ghost b = ns.branches[*id];
                    proof {
                        lemma_wf_branch_unfold(ns, *node, h, lo, hi, after);
                        assert(b.children == branch.children@);
                    }
                    let mut total: usize = 0;
                    let mut i: usize = 0;
                    while i < branch.children.len()
                        invariant
                            self.arenas_ok(),
                            ns == self.views(),
                            b == ns.branches[*id],
                            b.children == branch.children@,
                            h > 0,
                            ch == h - 1,
                            crate::tree_spec::wf_branch(ns, b, ch, lo, hi, after, *node),
                            content(ns, *node, h) == children_contents(ns, b.children, ch).flatten(),
                            content(ns, *node, h).len() <= usize::MAX,
                            i <= branch.children@.len(),
                            total == children_contents(ns, b.children.subrange(0, i as int), ch).flatten().len(),
                        decreases branch.children@.len() - i,
                    {
                        proof {
                            lemma_prefix_step(ns, b.children, ch, i as int);
                            assert(wf_node(ns, b.children[i as int], ch, child_lo(b.keys, i as int, lo),
                                child_hi(b.keys, i as int, hi), child_after(ns, b.children, i as int, ch, after)));
                        }
                        let n = self.len_recursive(&branch.children[i], Ghost(ch), Ghost(child_lo(b.keys, i as int, lo)),
                            Ghost(child_hi(b.keys, i as int, hi)), Ghost(child_after(ns, b.children, i as int, ch, after)));
                        total = total + n;
                        i = i + 1;
                    }
                    proof {
                        assert(b.children.subrange(0, i as int) =~= b.children);
                    }
                    total
                },
                None => 0,
            },
        }
    }

    /// Number of key-value pairs in the tree.
    pub fn len(&self) -> (r: usize)
        requires
            self.wf(),
            self.entries().len() <= usize::MAX,
        ensures
            r == self.entries().len(),
    {
        self.len_recursive(&self.root, Ghost(self.height@), Ghost(None), Ghost(None), Ghost(NULL_NODE))
    }

    /// Whether the tree holds no entry.
    pub fn is_empty(&self) -> (r: bool)
        requires
            self.wf(),
            self.entries().len() <= usize::MAX,
        ensures
            r == (self.entries().len() == 0),
    {
        self.len() == 0
    }

    /// Whether the root is a leaf.
    pub fn is_leaf_root(&self) -> (r: bool)
        ensures
            r == (self.root is Leaf),
    {
        matches!(self.root, NodeRef::Leaf(_, _))
    }

    /// Number of leaves below `node`.
    fn leaf_count_recursive(&self, node: &NodeRef<K, V>, Ghost(h): Ghost<nat>, Ghost(lo): Ghost<Option<int>>,
        Ghost(hi): Ghost<Option<int>>, Ghost(after): Ghost<NodeId>) -> (r: usize)
        requires
            self.arenas_ok(),
            wf_node(self.views(), *node, h, lo, hi, after),
            leaf_seq(self.views(), *node, h).len() <= usize::MAX,
        ensures
            r == leaf_seq(self.views(), *node, h).len(),
        decreases h,
    {
        let ghost ns = self.views();
        match node {
            NodeRef::Leaf(_, _) => 1,
            NodeRef::Branch(id, _) => match self.get_branch(*id) {
                Some(branch) => {
                    let ghost ch = (h - 1) as nat;
                    let ghost b = ns.branches[*id];
                    proof {
                        lemma_wf_branch_unfold(ns, *node, h, lo, hi, after);
                        assert(b.children == branch.children@);
                    }
                    let mut total: usize = 0;
                    let mut i: usize = 0;
                    while i < branch.children.len()
                        invariant
                            self.arenas_ok(),
                            ns == self.views(),
                            b == ns.branches[*id],
                            b.children == branch.children@,
                            h > 0,
                            ch == h - 1,
                            crate::tree_spec::wf_branch(ns, b, ch, lo, hi, after, *node),
                            leaf_seq(ns, *node, h) == leaf_seqs_of(ns, b.children, ch).flatten(),
                            leaf_seq(ns, *node, h).len() <= usize::MAX,
                            i <= branch.children@.len(),
                            total == leaf_seqs_of(ns, b.children.subrange(0, i as int), ch).flatten().len(),
                        decreases branch.children@.len() - i,
                    {
                        proof {
                            lemma_prefix_step(ns, b.children, ch, i as int);
                            assert(wf_node(ns, b.children[i as int], ch, child_lo(b.keys, i as int, lo),
                                child_hi(b.keys, i as int, hi), child_after(ns, b.children, i as int, ch, after)));
                        }
                        let n = self.leaf_count_recursive(&branch.children[i], Ghost(ch), Ghost(child_lo(b.keys, i as int, lo)),
                            Ghost(child_hi(b.keys, i as int, hi)), Ghost(child_after(ns, b.children, i as int, ch, after)));
                        total = total + n;
                        i = i + 1;
                    }
                    proof {
                        assert(b.children.subrange(0, i as int) =~= b.children);
                    }
                    total
                },
                None => 0,
            },
        }
    }

    /// Number of leaves in the tree.
    pub fn leaf_count(&self) -> (r: usize)
        requires
            self.wf(),
            leaf_seq(self.views(), self.root, self.height@).len() <= usize::MAX,
        ensures
            r == leaf_seq(self.views(), self.root, self.height@).len(),
    {
        self.leaf_count_recursive(&self.root, Ghost(self.height@), Ghost(None), Ghost(None), Ghost(NULL_NODE))
    }

    /// Remove every entry: the arenas are emptied and a new empty root leaf
    /// is allocated.
    pub fn clear(&mut self)
        requires
            old(self).arenas_ok(),
        ensures
            final(self).wf(),
            final(self).capacity == old(self).capacity,
            final(self).entries() == Seq::<(K, V)>::empty(),
            final(self).leaf_arena.slot_count() == 1,
            final(self).branch_arena.slot_count() == 0,
            final(self).leaf_arena.free_ids().len() == 0,
            final(self).branch_arena.free_ids().len() == 0,
            final(self).arenas_match_tree(),
            final(self).root is Leaf,
            final(self).height@ == 0,
            final(self).has_room(),
            final(self).half_full(),
    {
        self.leaf_arena.clear();
        self.branch_arena.clear();
        let root_leaf = LeafNode::new(self.capacity);
        let root_id = self.leaf_arena.allocate(root_leaf);
        self.root = NodeRef::Leaf(root_id, PhantomData);
        self.height = Ghost(0);
        proof {
            assert(self.views().leaves.contains_key(root_id));
            assert(self.entries() =~= Seq::<(K, V)>::empty());
        }
    }

    /// Leaves and branches below `node`.
    fn count_nodes_recursive(&self, node: &NodeRef<K, V>, Ghost(h): Ghost<nat>, Ghost(lo): Ghost<Option<int>>,
        Ghost(hi): Ghost<Option<int>>, Ghost(after): Ghost<NodeId>) -> (r: (usize, usize))
        requires
            self.arenas_ok(),
            wf_node(self.views(), *node, h, lo, hi, after),
            leaf_seq(self.views(), *node, h).len() <= usize::MAX,
            branch_total(self.views(), *node, h) <= usize::MAX,
        ensures
            r.0 == leaf_seq(self.views(), *node, h).len(),
            r.1 == branch_total(self.views(), *node, h),
        decreases h,
    {
        let ghost ns = self.views();
        match node {
            NodeRef::Leaf(_, _) => (1, 0),
            NodeRef::Branch(id, _) => {
                if let Some(branch) = self.get_branch(*id) {
                    let ghost ch = (h - 1) as nat;
                    let ghost b = ns.branches[*id];
                    proof {
                        lemma_wf_branch_unfold(ns, *node, h, lo, hi, after);
                        assert(b.children == branch.children@);
                        lemma_branch_total_prefix(ns, b.children, ch, b.children.len() as int);
                        assert(b.children.subrange(0, b.children.len() as int) =~= b.children);
                    }
                    let mut total_leaves: usize = 0;
                    let mut total_branches: usize = 1;
                    let mut i: usize = 0;
                    while i < branch.children.len()
                        invariant
                            self.arenas_ok(),
                            ns == self.views(),
                            b == ns.branches[*id],
                            b.children == branch.children@,
                            h > 0,
                            ch == h - 1,
                            crate::tree_spec::wf_branch(ns, b, ch, lo, hi, after, *node),
                            leaf_seq(ns, *node, h) == leaf_seqs_of(ns, b.children, ch).flatten(),
                            leaf_seq(ns, *node, h).len() <= usize::MAX,
                            branch_total(ns, *node, h) == 1 + children_branch_total(ns, b.children, ch),
                            branch_total(ns, *node, h) <= usize::MAX,
                            forall|j: int| 0 <= j <= b.children.len() ==> #[trigger] children_branch_total(ns, b.children.subrange(0, j), ch)
                                <= children_branch_total(ns, b.children, ch),
                            i <= branch.children@.len(),
                            total_leaves == leaf_seqs_of(ns, b.children.subrange(0, i as int), ch).flatten().len(),
                            total_branches == 1 + children_branch_total(ns, b.children.subrange(0, i as int), ch),
                        decreases branch.children@.len() - i,
                    {
                        proof {
                            lemma_prefix_step(ns, b.children, ch, i as int);
                            assert(children_branch_total(ns, b.children.subrange(0, i as int + 1), ch) <= children_branch_total(ns, b.children, ch));
                            assert(wf_node(ns, b.children[i as int], ch, child_lo(b.keys, i as int, lo),
                                child_hi(b.keys, i as int, hi), child_after(ns, b.children, i as int, ch, after)));
                        }
                        let (child_leaves, child_branches) = self.count_nodes_recursive(&branch.children[i], Ghost(ch),
                            Ghost(child_lo(b.keys, i as int, lo)), Ghost(child_hi(b.keys, i as int, hi)),
                            Ghost(child_after(ns, b.children, i as int, ch, after)));
                        total_leaves = total_leaves + child_leaves;
                        total_branches = total_branches + child_branches;
                        i = i + 1;
                    }
                    proof {
                        assert(b.children.subrange(0, i as int) =~= b.children);
                    }
                    (total_leaves, total_branches)
                } else {
                    (0, 0)
                }
            },
        }
    }

    /// The number of leaves and of branches in the tree.
    pub fn count_nodes_in_tree(&self) -> (r: (usize, usize))
        requires
            self.wf(),
            leaf_seq(self.views(), self.root, self.height@).len() <= usize::MAX,
            branch_total(self.views(), self.root, self.height@) <= usize::MAX,
        ensures
            r.0 == leaf_seq(self.views(), self.root, self.height@).len(),
            r.1 == branch_total(self.views(), self.root, self.height@),
    {
        if matches!(self.root, NodeRef::Leaf(_, _)) {
            (1, 0)
        } else {
            self.count_nodes_recursive(&self.root, Ghost(self.height@), Ghost(None), Ghost(None), Ghost(NULL_NODE))
        }
    }

    /// The id of the leftmost leaf.
    pub fn get_first_leaf_id(&self) -> (r: Option<NodeId>)
        requires
            self.wf(),
        ensures
            r == Some(leaf_seq(self.views(), self.root, self.height@)[0]),
    {
        let ghost ns = self.views();
        let mut current = self.root;
        let ghost mut h = self.height@;
        let ghost mut lo: Option<int> = None;
        let ghost mut hi: Option<int> = None;
        let ghost mut after: NodeId = NULL_NODE;
        proof {
            lemma_wf_basic(ns, current, h, lo, hi, after);
        }
        loop
            invariant
                self.wf(),
                ns == self.views(),
                wf_node(ns, current, h, lo, hi, after),
                leaf_seq(ns, current, h).len() > 0,
                leaf_seq(ns, current, h)[0] == leaf_seq(ns, self.root, self.height@)[0],
            decreases h,
        {
            match current {
                NodeRef::Leaf(leaf_id, _) => {
                    return Some(leaf_id);
                },
                NodeRef::Branch(branch_id, _) => {
                    proof {
                        lemma_wf_branch_unfold(ns, current, h, lo, hi, after);
                    }
                    match self.get_branch(branch_id) {
                        Some(branch) => {
                            if branch.children.len() > 0 {
                                let ghost b = ns.branches[branch_id];
                                let ghost ch = (h - 1) as nat;
                                proof {
                                    assert(b.children == branch.children@);
                                    assert(wf_node(ns, b.children[0], ch, child_lo(b.keys, 0, lo), child_hi(b.keys, 0, hi),
                                        child_after(ns, b.children, 0, ch, after)));
                                    lemma_wf_basic(ns, b.children[0], ch, child_lo(b.keys, 0, lo), child_hi(b.keys, 0, hi),
                                        child_after(ns, b.children, 0, ch, after));
                                    lemma_first_leaf(ns, b.children, ch);
                                    let nlo = child_lo(b.keys, 0, lo);
                                    let nhi = child_hi(b.keys, 0, hi);
                                    let naf = child_after(ns, b.children, 0, ch, after);
                                    lo = nlo;
                                    hi = nhi;
                                    after = naf;
                                    h = ch;
                                }
                                current = branch.children[0];
                            } else {
                                return None;
                            }
                        },
                        None => {
                            return None;
                        },
                    }
                },
            }
        }
    }

    /// The index and reference of the child of a branch that covers `key`.
    pub fn find_child(&self, branch_id: NodeId, key: &K) -> (r: Option<(usize, NodeRef<K, V>)>)
        requires
            self.branch_arena.wf(),
            self.branch_arena@.contains_key(branch_id) ==> keys_sorted(self.branch_arena@[branch_id].keys@),
        ensures
            r == (if self.branch_arena@.contains_key(branch_id) {
                let b = self.branch_arena@[branch_id];
                let i = child_pos(b.keys@, *key);
                if i < b.children@.len() {
                    Some((i as usize, b.children@[i]))
                } else {
                    None
                }
            } else {
                None
            }),
    {
        match self.get_branch(branch_id) {
            Some(branch) => {
                let idx = branch.find_child_index(key);
                if idx < branch.children.len() {
                    Some((idx, branch.children[idx]))
                } else {
                    None
                }
            },
            None => None,
        }
    }

    /// The same lookup as `find_child`, through mutable access; nothing
    /// changes.
    pub fn find_child_mut(&mut self, branch_id: NodeId, key: &K) -> (r: Option<(usize, NodeRef<K, V>)>)
        requires
            old(self).branch_arena.wf(),
            old(self).branch_arena@.contains_key(branch_id) ==> keys_sorted(old(self).branch_arena@[branch_id].keys@),
        ensures
            final(self)@ == old(self)@,
            final(self).views() == old(self).views(),
            final(self).root == old(self).root,
            final(self).height == old(self).height,
            final(self).capacity == old(self).capacity,
            r == (if old(self).branch_arena@.contains_key(branch_id) {
                let b = old(self).branch_arena@[branch_id];
                let i = child_pos(b.keys@, *key);
                if i < b.children@.len() {
                    Some((i as usize, b.children@[i]))
                } else {
                    None
                }
            } else {
                None
            }),
    {
        let r = match self.get_branch_mut(branch_id) {
            Some(branch) => {
                let idx = branch.find_child_index(key);
                if idx < branch.children.len() {
                    Some((idx, branch.children[idx]))
                } else {
                    None
                }
            },
            None => None,
        };
        proof {
            assert(self.branch_arena@ =~= old(self).branch_arena@);
            assert(self.views().branches =~= old(self).views().branches);
        }
        r
    }
}

/// Prefix branch totals never exceed the whole.
proof fn lemma_branch_total_prefix<K, V>(ns: NodeViews<K, V>, cs: Seq<NodeRef<K, V>>, h: nat, n: int)
    requires
        0 <= n <= cs.len(),
    ensures
        forall|j: int| 0 <= j <= n ==> #[trigger] children_branch_total(ns, cs.subrange(0, j), h)
            <= children_branch_total(ns, cs.subrange(0, n), h),
    decreases n,
{
    if n > 0 {
        lemma_branch_total_prefix(ns, cs, h, n - 1);
        let p = cs.subrange(0, n);
        assert(p.drop_last() =~= cs.subrange(0, n - 1));
    }
    assert(cs.subrange(0, cs.len() as int) =~= cs);
}

} // verus!
