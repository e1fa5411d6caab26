//! The node views that each rebalancing step leaves behind: a pair of
//! neighbouring children `a` and `c` of branch `p`, separated by key `i` of
//! `p`, either hand one entry or child across or are merged into `a`.
use crate::rebalance_lemmas::{body_drop_first, body_drop_last, body_join, body_push_back, body_push_front};
use crate::tree_spec::{BranchView, LeafView, NodeViews};
use crate::types::{NodeId, NodeRef};
use vstd::prelude::*;

verus! {

/// The last entry of leaf `a` moves to the front of leaf `c`, and its key
/// becomes separator `i` of branch `p`.
pub open spec fn leaf_shift_right<K, V>(ns: NodeViews<K, V>, p: NodeId, i: int, a: NodeId, c: NodeId) -> NodeViews<K, V> {
    let la = ns.leaves[a];
    let lc = ns.leaves[c];
    let b = ns.branches[p];
    NodeViews {
        leaves: ns.leaves.insert(a, LeafView { keys: la.keys.drop_last(), values: la.values.drop_last(), next: la.next })
            .insert(c, LeafView { keys: lc.keys.insert(0, la.keys.last()), values: lc.values.insert(0, la.values.last()), next: lc.next }),
        branches: ns.branches.insert(p, BranchView { keys: b.keys.update(i, la.keys.last()), children: b.children }),
    }
}

/// The first entry of leaf `c` moves to the end of leaf `a`, and the new
/// first key of `c` becomes separator `i` of branch `p`.
pub open spec fn leaf_shift_left<K, V>(ns: NodeViews<K, V>, p: NodeId, i: int, a: NodeId, c: NodeId) -> NodeViews<K, V> {
    let la = ns.leaves[a];
    let lc = ns.leaves[c];
    let b = ns.branches[p];
    NodeViews {
        leaves: ns.leaves.insert(a, LeafView { keys: la.keys.push(lc.keys[0]), values: la.values.push(lc.values[0]), next: la.next })
            .insert(c, LeafView { keys: lc.keys.remove(0), values: lc.values.remove(0), next: lc.next }),
        branches: ns.branches.insert(p, BranchView { keys: b.keys.update(i, lc.keys[1]), children: b.children }),
    }
}

/// Leaf `c` is appended to leaf `a` and dropped, with separator `i` and
/// child `i + 1` of branch `p`.
pub open spec fn leaf_merged<K, V>(ns: NodeViews<K, V>, p: NodeId, i: int, a: NodeId, c: NodeId) -> NodeViews<K, V> {
    let la = ns.leaves[a];
    let lc = ns.leaves[c];
    let b = ns.branches[p];
    NodeViews {
        leaves: ns.leaves.insert(a, LeafView { keys: la.keys + lc.keys, values: la.values + lc.values, next: lc.next })
            .remove(c),
        branches: ns.branches.insert(p, BranchView { keys: b.keys.remove(i), children: b.children.remove(i + 1) }),
    }
}

/// The last child of branch `a` moves to the front of branch `c` with
/// separator `i` of `p` as its key, and the last key of `a` becomes that
/// separator.
pub open spec fn branch_shift_right<K, V>(ns: NodeViews<K, V>, p: NodeId, i: int, a: NodeId, c: NodeId) -> NodeViews<K, V> {
    let ba = ns.branches[a];
    let bc = ns.branches[c];
    let b = ns.branches[p];
    NodeViews {
        leaves: ns.leaves,
        branches: ns.branches.insert(a, body_drop_last(ba)).insert(c, body_push_front(bc, b.keys[i], ba.children.last()))
            .insert(p, BranchView { keys: b.keys.update(i, ba.keys.last()), children: b.children }),
    }
}

/// The first child of branch `c` moves to the end of branch `a` with
/// separator `i` of `p` as its key, and the first key of `c` becomes that
/// separator.
pub open spec fn branch_shift_left<K, V>(ns: NodeViews<K, V>, p: NodeId, i: int, a: NodeId, c: NodeId) -> NodeViews<K, V> {
    let ba = ns.branches[a];
    let bc = ns.branches[c];
    let b = ns.branches[p];
    NodeViews {
        leaves: ns.leaves,
        branches: ns.branches.insert(a, body_push_back(ba, b.keys[i], bc.children[0])).insert(c, body_drop_first(bc))
            .insert(p, BranchView { keys: b.keys.update(i, bc.keys[0]), children: b.children }),
    }
}

/// Branch `c` is joined to branch `a` with separator `i` of `p` between
/// them, and dropped with that separator and child `i + 1` of `p`.
pub open spec fn branch_merged<K, V>(ns: NodeViews<K, V>, p: NodeId, i: int, a: NodeId, c: NodeId) -> NodeViews<K, V> {
    let ba = ns.branches[a];
    let bc = ns.branches[c];
    let b = ns.branches[p];
    NodeViews {
        leaves: ns.leaves,
        branches: ns.branches.insert(a, body_join(ba, b.keys[i], bc))
            .insert(p, BranchView { keys: b.keys.remove(i), children: b.children.remove(i + 1) }).remove(c),
    }
}

/// Two views that agree with a third off three nodes, and with each other
/// on those three, are equal.
pub proof fn lemma_views_match<K, V>(
    ns0: NodeViews<K, V>,
    ns1: NodeViews<K, V>,
    tgt: NodeViews<K, V>,
    x1: NodeRef<K, V>,
    x2: NodeRef<K, V>,
    x3: NodeRef<K, V>,
)
    requires
        forall|x: NodeRef<K, V>| x != x1 && x != x2 && x != x3 ==> #[trigger] ns0.same_node(ns1, x),
        forall|x: NodeRef<K, V>| x != x1 && x != x2 && x != x3 ==> #[trigger] ns0.same_node(tgt, x),
        ns1.same_node(tgt, x1),
        ns1.same_node(tgt, x2),
        ns1.same_node(tgt, x3),
    ensures
        ns1 == tgt,
{
    assert forall|id: NodeId| #[trigger] ns1.leaves.contains_key(id) == tgt.leaves.contains_key(id)
        && (ns1.leaves.contains_key(id) ==> ns1.leaves[id] == tgt.leaves[id]) by {
        let x = NodeRef::<K, V>::Leaf(id, std::marker::PhantomData);
        assert(ns0.same_node(ns1, x) || x == x1 || x == x2 || x == x3);
        if x != x1 && x != x2 && x != x3 {
            assert(ns0.same_node(tgt, x));
        }
    }
    assert forall|id: NodeId| #[trigger] ns1.branches.contains_key(id) == tgt.branches.contains_key(id)
        && (ns1.branches.contains_key(id) ==> ns1.branches[id] == tgt.branches[id]) by {
        let x = NodeRef::<K, V>::Branch(id, std::marker::PhantomData);
        assert(ns0.same_node(ns1, x) || x == x1 || x == x2 || x == x3);
        if x != x1 && x != x2 && x != x3 {
            assert(ns0.same_node(tgt, x));
        }
    }
    assert(ns1.leaves =~= tgt.leaves);
    assert(ns1.branches =~= tgt.branches);
}

} // verus!
