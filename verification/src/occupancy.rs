//! How full the nodes of a tree are: every node other than the root, and
//! other than a few nodes named as exceptions, holds at least half the
//! capacity in keys; and how rebalancing an underfull child keeps that.
use crate::tree::BPlusTreeMap;
use crate::tree_remove::{can_donate, lemma_branch_children, lemma_branch_pair_facts, lemma_leaf_children, rebalanced};
use crate::tree_spec::{child_after, child_hi, child_lo, lemma_wf_branch_unfold, rank_in, wf_node, NodeViews};
use crate::validation::{branch_checks, child_max, child_min, leaf_checks, lemma_first_children_checks, node_checks};
use crate::types::{branch_ref, NodeId, NodeRef, TreeKey, MIN_CAPACITY, NULL_NODE};
use std::marker::PhantomData;
use vstd::prelude::*;

verus! {

/// How many keys the node `n` holds.
pub open spec fn keys_len<K, V>(ns: NodeViews<K, V>, n: NodeRef<K, V>) -> int {
    match n {
        NodeRef::Leaf(id, _) => ns.leaves[id].keys.len() as int,
        NodeRef::Branch(id, _) => ns.branches[id].keys.len() as int,
    }
}

/// Every node outside `ex` holds at least `cap / 2` keys.
pub open spec fn full_enough<K, V>(ns: NodeViews<K, V>, cap: int, ex: Set<NodeRef<K, V>>) -> bool {
    &&& forall|id: NodeId| #[trigger]
        ns.leaves.contains_key(id) && !ex.contains(NodeRef::Leaf(id, PhantomData)) ==> ns.leaves[id].keys.len()
            >= cap / 2
    &&& forall|id: NodeId| #[trigger]
        ns.branches.contains_key(id) && !ex.contains(NodeRef::Branch(id, PhantomData)) ==> ns.branches[id].keys.len()
            >= cap / 2
}

/// The single child of branch `n`, or `n` itself when it has another
/// number of children or is a leaf.
pub open spec fn only_child<K, V>(ns: NodeViews<K, V>, n: NodeRef<K, V>) -> NodeRef<K, V> {
    if n is Branch && ns.branches.contains_key(n.spec_id()) && ns.branches[n.spec_id()].children.len() == 1 {
        ns.branches[n.spec_id()].children[0]
    } else {
        n
    }
}

/// A tree is half full exactly when its views are, with the root exempt.
pub proof fn lemma_half_full_views<K: TreeKey, V>(t: BPlusTreeMap<K, V>)
    ensures
        t.half_full() == full_enough(t.views(), t.capacity as int, set![t.root]),
{
    let ns = t.views();
    if t.half_full() {
        assert forall|id: NodeId| #[trigger]
            ns.leaves.contains_key(id) && !set![t.root].contains(NodeRef::Leaf(id, PhantomData)) implies ns.leaves[id].keys.len()
            >= t.capacity / 2 by {
            assert(t.leaf_arena@.contains_key(id));
        }
        assert forall|id: NodeId| #[trigger]
            ns.branches.contains_key(id) && !set![t.root].contains(NodeRef::Branch(id, PhantomData)) implies ns.branches[id].keys.len()
            >= t.capacity / 2 by {
            assert(t.branch_arena@.contains_key(id));
        }
    }
    if full_enough(ns, t.capacity as int, set![t.root]) {
        assert forall|id: NodeId| #[trigger]
            t.leaf_arena@.contains_key(id) && NodeRef::<K, V>::Leaf(id, PhantomData) != t.root implies t.leaf_arena@[id].keys@.len()
            >= t.capacity / 2 by {
            assert(ns.leaves.contains_key(id));
        }
        assert forall|id: NodeId| #[trigger]
            t.branch_arena@.contains_key(id) && NodeRef::<K, V>::Branch(id, PhantomData) != t.root implies t.branch_arena@[id].keys@.len()
            >= t.capacity / 2 by {
            assert(ns.branches.contains_key(id));
        }
    }
}

/// Changing values only, or nothing, keeps a tree half full.
pub proof fn lemma_half_full_values_set<K: TreeKey, V>(t0: BPlusTreeMap<K, V>)
    ensures
        forall|t1: BPlusTreeMap<K, V>, lid: NodeId, p: int, v: V|
            #![trigger t1.half_full(), crate::tree_insert::with_value(t0.views(), lid, p, v)]
            t0.half_full() && t1.capacity == t0.capacity && t1.root == t0.root
                && t0.views().leaves.contains_key(lid)
                && t1.views() == crate::tree_insert::with_value(t0.views(), lid, p, v) ==> t1.half_full(),
        forall|t1: BPlusTreeMap<K, V>| #![trigger t1.half_full()]
            t0.half_full() && t1.capacity == t0.capacity && t1.root == t0.root && t1.views() == t0.views()
                ==> t1.half_full(),
{
    lemma_half_full_views(t0);
    assert forall|t1: BPlusTreeMap<K, V>, lid: NodeId, p: int, v: V|
        #![trigger t1.half_full(), crate::tree_insert::with_value(t0.views(), lid, p, v)]
        t0.half_full() && t1.capacity == t0.capacity && t1.root == t0.root
            && t0.views().leaves.contains_key(lid)
            && t1.views() == crate::tree_insert::with_value(t0.views(), lid, p, v) implies t1.half_full() by {
        lemma_half_full_views(t1);
        let ns0 = t0.views();
        let ns1 = t1.views();
        assert forall|id: NodeId| #[trigger] ns1.leaves.contains_key(id) implies ns0.leaves.contains_key(id)
            && ns1.leaves[id].keys == ns0.leaves[id].keys by {}
    }
    assert forall|t1: BPlusTreeMap<K, V>| #![trigger t1.half_full()]
        t0.half_full() && t1.capacity == t0.capacity && t1.root == t0.root && t1.views() == t0.views()
            implies t1.half_full() by {
        lemma_half_full_views(t1);
    }
}

/// A subtree has one height: the same node is well-formed at two heights
/// only when they agree.
pub proof fn lemma_height_unique<K: TreeKey, V>(
    ns: NodeViews<K, V>,
    n: NodeRef<K, V>,
    h1: nat,
    lo1: Option<int>,
    hi1: Option<int>,
    a1: NodeId,
    h2: nat,
    lo2: Option<int>,
    hi2: Option<int>,
    a2: NodeId,
)
    requires
        wf_node(ns, n, h1, lo1, hi1, a1),
        wf_node(ns, n, h2, lo2, hi2, a2),
    ensures
        h1 == h2,
    decreases h1,
{
    if n is Branch {
        crate::tree_spec::lemma_wf_branch_unfold(ns, n, h1, lo1, hi1, a1);
        crate::tree_spec::lemma_wf_branch_unfold(ns, n, h2, lo2, hi2, a2);
        let b = ns.branches[n.spec_id()];
        let c = b.children[0];
        let ch1 = (h1 - 1) as nat;
        let ch2 = (h2 - 1) as nat;
        assert(wf_node(ns, c, ch1, crate::tree_spec::child_lo(b.keys, 0, lo1), crate::tree_spec::child_hi(b.keys, 0, hi1),
            crate::tree_spec::child_after(ns, b.children, 0, ch1, a1)));
        assert(wf_node(ns, c, ch2, crate::tree_spec::child_lo(b.keys, 0, lo2), crate::tree_spec::child_hi(b.keys, 0, hi2),
            crate::tree_spec::child_after(ns, b.children, 0, ch2, a2)));
        lemma_height_unique(ns, c, ch1, crate::tree_spec::child_lo(b.keys, 0, lo1), crate::tree_spec::child_hi(b.keys, 0, hi1),
            crate::tree_spec::child_after(ns, b.children, 0, ch1, a1), ch2, crate::tree_spec::child_lo(b.keys, 0, lo2),
            crate::tree_spec::child_hi(b.keys, 0, hi2), crate::tree_spec::child_after(ns, b.children, 0, ch2, a2));
    }
}

/// Rebalancing an underfull child of branch `p` that is at most one key
/// short leaves every node but the root, `p` and `p`'s single child (when
/// it has only one) at least half full; `p` loses at most one key, and a
/// single child left is at most one key short.
pub proof fn lemma_rebalanced_full<K: TreeKey, V>(
    t: BPlusTreeMap<K, V>,
    p: NodeId,
    i: int,
    root: NodeRef<K, V>,
    h: nat,
    lo: Option<int>,
    hi: Option<int>,
    after: NodeId,
)
    requires
        t.arenas_ok(),
        wf_node(t.views(), branch_ref(p), h, lo, hi, after),
        0 <= i < t.views().branches[p].children.len(),
        full_enough(t.views(), t.capacity as int, set![root, branch_ref(p), t.views().branches[p].children[i]]),
        forall|j: int| 0 <= j < t.views().branches[p].children.len() ==> #[trigger] t.views().branches[p].children[j] != root,
        keys_len(t.views(), t.views().branches[p].children[i]) < t.capacity / 2,
        keys_len(t.views(), t.views().branches[p].children[i]) + 1 >= t.capacity / 2,
    ensures
        ({
            let rb = rebalanced(t, p, i).0;
            let bp = branch_ref::<K, V>(p);
            &&& full_enough(rb, t.capacity as int, set![root, bp, only_child(rb, bp)])
            &&& rb.branches.contains_key(p)
            &&& keys_len(rb, bp) + 1 >= keys_len(t.views(), bp)
            &&& only_child(rb, bp) != bp ==> keys_len(rb, only_child(rb, bp)) + 1 >= t.capacity / 2
        }),
{
    let ns = t.views();
    let cap = t.capacity as int;
    let b = ns.branches[p];
    let ch = b.children;
    let bp = branch_ref::<K, V>(p);
    let rb = rebalanced(t, p, i).0;
    let c = ch[i];
    assert(cap >= MIN_CAPACITY);
    if h == 1 {
        lemma_leaf_children(ns, bp, h, lo, hi, after);
    } else {
        crate::tree_spec::lemma_wf_basic(ns, bp, h, lo, hi, after);
        lemma_branch_children(ns, bp, h, lo, hi, after);
        if i > 0 {
            lemma_branch_pair_facts(ns, bp, h, lo, hi, after, i - 1);
        }
        if i + 1 < ch.len() {
            lemma_branch_pair_facts(ns, bp, h, lo, hi, after, i);
        }
    }
    assert(ch.len() == b.keys.len() + 1);
    assert forall|j: int| 0 <= j < ch.len() implies #[trigger] can_donate(t, ch[j]) == (keys_len(ns, ch[j]) > cap / 2) by {
        if ch[j] is Leaf {
            assert(ns.leaves.contains_key(ch[j].spec_id()));
            assert(t.leaf_arena@.contains_key(ch[j].spec_id()));
        } else {
            assert(ns.branches.contains_key(ch[j].spec_id()));
            assert(t.branch_arena@.contains_key(ch[j].spec_id()));
        }
    }
    if i > 0 {
        assert(ch[i - 1] != c);
        assert(can_donate(t, ch[i - 1]) == (keys_len(ns, ch[i - 1]) > cap / 2));
    }
    if i + 1 < ch.len() {
        assert(ch[i + 1] != c);
        assert(can_donate(t, ch[i + 1]) == (keys_len(ns, ch[i + 1]) > cap / 2));
    }
    let ex = set![root, bp, only_child(rb, bp)];
    assert forall|id: NodeId| #[trigger] rb.leaves.contains_key(id) && !ex.contains(NodeRef::Leaf(id, PhantomData))
        implies rb.leaves[id].keys.len() >= cap / 2 by {
        let x = NodeRef::<K, V>::Leaf(id, PhantomData);
        if x == c {
        } else if i > 0 && x == ch[i - 1] {
        } else if i + 1 < ch.len() && x == ch[i + 1] {
        } else {
            assert(ns.leaves.contains_key(id));
            assert(rb.leaves[id] == ns.leaves[id]);
        }
    }
    assert forall|id: NodeId| #[trigger] rb.branches.contains_key(id) && !ex.contains(NodeRef::Branch(id, PhantomData))
        implies rb.branches[id].keys.len() >= cap / 2 by {
        let x = NodeRef::<K, V>::Branch(id, PhantomData);
        if x == c {
        } else if i > 0 && x == ch[i - 1] {
        } else if i + 1 < ch.len() && x == ch[i + 1] {
        } else {
            assert(ns.branches.contains_key(id));
            assert(rb.branches[id] == ns.branches[id]);
        }
    }
}

/// The rank of an optional bound.
pub open spec fn rank_of<K: TreeKey>(b: Option<K>) -> Option<int> {
    match b {
        Some(k) => Some(k.rank()),
        None => None,
    }
}

/// A well-formed subtree of a half-full tree passes the node checks: a
/// node below the root holds at least half the capacity.
pub proof fn lemma_wf_node_checks<K: TreeKey, V>(
    t: BPlusTreeMap<K, V>,
    n: NodeRef<K, V>,
    h: nat,
    min: Option<K>,
    max: Option<K>,
    after: NodeId,
    is_root: bool,
)
    requires
        t.arenas_ok(),
        t.half_full(),
        wf_node(t.views(), t.root, t.height@, None, None, NULL_NODE),
        wf_node(t.views(), n, h, rank_of(min), rank_of(max), after),
        h <= t.height@,
        !is_root ==> h < t.height@,
    ensures
        node_checks(t.leaf_arena@, t.branch_arena@, n, h, min, max, is_root, t.capacity),
    decreases h,
{
    let ns = t.views();
    let cap = t.capacity;
    if !is_root && n == t.root {
        lemma_height_unique(ns, n, h, rank_of(min), rank_of(max), after, t.height@, None, None, NULL_NODE);
    }
    match n {
        NodeRef::Leaf(id, _) => {
            let l = t.leaf_arena@[id];
            assert(ns.leaves[id].keys == l.keys@);
            assert(t.leaf_arena@.contains_key(id));
            if l.keys@.len() > 0 {
                assert(rank_in(l.keys@[0].rank(), rank_of(min), rank_of(max)));
                assert(rank_in(l.keys@[l.keys@.len() - 1].rank(), rank_of(min), rank_of(max)));
            }
            assert(leaf_checks(l, min, max, is_root, cap));
        },
        NodeRef::Branch(id, _) => {
            lemma_wf_branch_unfold(ns, n, h, rank_of(min), rank_of(max), after);
            let b = t.branch_arena@[id];
            let bv = ns.branches[id];
            let ch = (h - 1) as nat;
            assert(t.branch_arena@.contains_key(id));
            assert(bv.keys == b.keys@ && bv.children == b.children@);
            assert(branch_checks(b, is_root, cap));
            lemma_first_children_checks(t.leaf_arena@, t.branch_arena@, b.keys@, b.children@, ch, min, max, cap,
                b.children@.len());
            assert forall|i: int| 0 <= i < b.children@.len() implies #[trigger] node_checks(
                t.leaf_arena@,
                t.branch_arena@,
                b.children@[i],
                ch,
                child_min(b.keys@, i, min),
                child_max(b.keys@, i, max),
                false,
                cap,
            ) by {
                assert(wf_node(ns, bv.children[i], ch, child_lo(bv.keys, i, rank_of(min)), child_hi(bv.keys, i,
                    rank_of(max)), child_after(ns, bv.children, i, ch, after)));
                assert(child_lo(bv.keys, i, rank_of(min)) == rank_of(child_min(b.keys@, i, min)));
                assert(child_hi(bv.keys, i, rank_of(max)) == rank_of(child_max(b.keys@, i, max)));
                lemma_wf_node_checks(t, b.children@[i], ch, child_min(b.keys@, i, min), child_max(b.keys@, i, max),
                    child_after(ns, bv.children, i, ch, after), false);
            }
        },
    }
}

/// A well-formed tree whose nodes other than the root are half full
/// passes the node checks.
pub proof fn lemma_tree_checks<K: TreeKey, V>(t: BPlusTreeMap<K, V>)
    requires
        t.wf(),
        t.half_full(),
    ensures
        t.check_invariants_spec(),
{
    lemma_wf_node_checks(t, t.root, t.height@, None, None, NULL_NODE, true);
}

} // verus!
