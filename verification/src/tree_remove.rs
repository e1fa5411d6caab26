//! Removal from the arena tree: from a leaf, down the branches, with an
//! underfull child rebalanced by borrowing from or merging with a sibling,
//! and the root collapsed when it is left with a single child.
use crate::body_lemmas::{lemma_body_frame, lemma_body_has};
use crate::rebalance_lemmas::{
    bodies_apart, body_drop_first, body_drop_last, body_join, body_push_back, body_push_front,
    lemma_body_merge, lemma_body_pair, lemma_join_bodies, lemma_rotate_from_left,
    lemma_rotate_from_right, merge_ok, pair_frame, pair_ok,
};
use crate::sorted::{
    child_pos, entries_map, entry_keys, has_key, is_lower_index, keys_sorted, lemma_choose_lower_index,
    lemma_map_get, lemma_map_remove_entry, lemma_remove_entry_middle, lemma_zip, lemma_zip_add,
    remove_entry, zip_entries,
};
use crate::tree_insert::old_value_ok;
use crate::node::{BranchNode, LeafNode, RemoveResult};
use crate::error::{BPlusTreeError, ModifyResult};
use crate::flatten::{lemma_flatten_replace, lemma_flatten_two};
use crate::tree_spec::{lemma_body_update_child, lemma_child_in_tree, lemma_frame, lemma_locate};
use crate::body_lemmas::lemma_parts_around;
use crate::types::NULL_NODE;
use std::marker::PhantomData;
use crate::tree_spec::{keys_in, leaf_entries, wf_leaf};
use crate::tree_spec::{
    child_after, child_hi, child_lo, children_contents, children_leaf_seq, content, in_children,
    in_tree, lemma_in_tree_unfold, lemma_wf_basic, lemma_wf_branch_unfold, leaf_seq, rank_in,
    wf_branch, wf_branch_body, wf_node, BranchView, LeafView, NodeViews,
};
use crate::tree::{bview, lview, node_keys_len, BPlusTreeMap};
use crate::occupancy::{full_enough, keys_len, lemma_half_full_views, lemma_height_unique, lemma_rebalanced_full, only_child};
use crate::rebalance_views::{
    branch_merged, branch_shift_left, branch_shift_right, leaf_merged, leaf_shift_left, leaf_shift_right,
    lemma_views_match,
};
use crate::types::{branch_ref, leaf_ref, NodeId, NodeRef, TreeKey};
use vstd::prelude::*;

verus! {

/// The subtree at `n` went from views `ns0` to `ns1` allocating nothing,
/// touching nothing outside it, and holds `c`, well-formed within the same
/// bounds and starting at the same leaf; its nodes are old nodes of it, and
/// every old node of it still in the views is still in it.
pub open spec fn subtree_kept<K: TreeKey, V>(
    ns0: NodeViews<K, V>,
    ns1: NodeViews<K, V>,
    n: NodeRef<K, V>,
    h: nat,
    lo: Option<int>,
    hi: Option<int>,
    after: NodeId,
    c: Seq<(K, V)>,
) -> bool {
    &&& forall|x: NodeRef<K, V>| ns0.has(x) && !in_tree(ns0, n, h, x) ==> #[trigger] ns0.same_node(ns1, x)
    &&& forall|x: NodeRef<K, V>| #[trigger] ns1.has(x) ==> ns0.has(x)
    &&& wf_node(ns1, n, h, lo, hi, after)
    &&& content(ns1, n, h) == c
    &&& leaf_seq(ns1, n, h)[0] == leaf_seq(ns0, n, h)[0]
    &&& forall|x: NodeRef<K, V>| #[trigger] in_tree(ns1, n, h, x) ==> in_tree(ns0, n, h, x)
    &&& forall|x: NodeRef<K, V>| ns1.has(x) && in_tree(ns0, n, h, x) ==> #[trigger] in_tree(ns1, n, h, x)
}

/// Only the nodes `a`, `b` and `c` may differ between the views.
pub open spec fn changed_only<K, V>(
    ns0: NodeViews<K, V>,
    ns1: NodeViews<K, V>,
    a: NodeRef<K, V>,
    b: NodeRef<K, V>,
    c: NodeRef<K, V>,
) -> bool {
    forall|x: NodeRef<K, V>| x != a && x != b && x != c ==> #[trigger] ns0.same_node(ns1, x)
}

/// No node exists in the new views that did not exist in the old.
pub open spec fn no_new<K, V>(ns0: NodeViews<K, V>, ns1: NodeViews<K, V>) -> bool {
    forall|x: NodeRef<K, V>| #[trigger] ns1.has(x) ==> ns0.has(x)
}

/// Keeping a subtree twice keeps it.
pub proof fn lemma_kept_trans<K: TreeKey, V>(
    ns0: NodeViews<K, V>,
    ns1: NodeViews<K, V>,
    ns2: NodeViews<K, V>,
    n: NodeRef<K, V>,
    h: nat,
    lo: Option<int>,
    hi: Option<int>,
    after: NodeId,
    c1: Seq<(K, V)>,
    c2: Seq<(K, V)>,
)
    requires
        subtree_kept(ns0, ns1, n, h, lo, hi, after, c1),
        subtree_kept(ns1, ns2, n, h, lo, hi, after, c2),
    ensures
        subtree_kept(ns0, ns2, n, h, lo, hi, after, c2),
{
    assert forall|x: NodeRef<K, V>| ns0.has(x) && !in_tree(ns0, n, h, x) implies #[trigger] ns0.same_node(ns2, x) by {
        assert(ns0.same_node(ns1, x));
        assert(ns1.has(x));
        assert(!in_tree(ns1, n, h, x));
        assert(ns1.same_node(ns2, x));
    }
    assert forall|x: NodeRef<K, V>| #[trigger] ns2.has(x) implies ns0.has(x) by {
        assert(ns1.has(x));
    }
}

/// The parent branch with two neighbouring children that traded entries
/// around a new separator keeps its subtree.
#[verifier::spinoff_prover]
pub proof fn lemma_parent_pair<K: TreeKey, V>(
    ns0: NodeViews<K, V>,
    ns1: NodeViews<K, V>,
    p: NodeRef<K, V>,
    h: nat,
    lo: Option<int>,
    hi: Option<int>,
    after: NodeId,
    j: int,
    s: K,
)
    requires
        wf_node(ns0, p, h, lo, hi, after),
        p is Branch,
        0 <= j,
        j + 1 < ns0.branches[p.spec_id()].children.len(),
        ns1.branches.contains_key(p.spec_id()),
        ns1.branches[p.spec_id()] == (BranchView {
            keys: ns0.branches[p.spec_id()].keys.update(j, s),
            children: ns0.branches[p.spec_id()].children,
        }),
        pair_frame(ns0, ns1, ns0.branches[p.spec_id()], (h - 1) as nat, j),
        pair_ok(ns0, ns1, ns0.branches[p.spec_id()], (h - 1) as nat, lo, hi, after, j, s),
        forall|x: NodeRef<K, V>| ns0.has(x) && !in_tree(ns0, p, h, x) ==> #[trigger] ns0.same_node(ns1, x),
        no_new(ns0, ns1),
    ensures
        subtree_kept(ns0, ns1, p, h, lo, hi, after, content(ns0, p, h)),
{
    let b = ns0.branches[p.spec_id()];
    let ch = (h - 1) as nat;
    lemma_wf_branch_unfold(ns0, p, h, lo, hi, after);
    lemma_body_pair(ns0, ns1, b, ch, lo, hi, after, j, s);
    let b1 = BranchView { keys: b.keys.update(j, s), children: b.children };
    assert forall|t: int| 0 <= t < b1.children.len() implies !#[trigger] in_tree(ns1, b1.children[t], ch, p) by {
        if in_tree(ns1, b1.children[t], ch, p) {
            assert(in_children(ns1, b.children, ch, p));
            assert(in_children(ns0, b.children, ch, p));
            let u = choose|u: int| 0 <= u < b.children.len() && #[trigger] in_tree(ns0, b.children[u], ch, p);
        }
    }
    lemma_wf_branch_unfold(ns1, p, h, lo, hi, after);
    assert forall|x: NodeRef<K, V>| #[trigger] in_tree(ns1, p, h, x) implies in_tree(ns0, p, h, x) by {
        lemma_in_tree_unfold(ns1, p, h, x);
        lemma_in_tree_unfold(ns0, p, h, x);
    }
    assert forall|x: NodeRef<K, V>| ns1.has(x) && in_tree(ns0, p, h, x) implies #[trigger] in_tree(ns1, p, h, x) by {
        lemma_in_tree_unfold(ns1, p, h, x);
        lemma_in_tree_unfold(ns0, p, h, x);
    }
}

/// The parent branch with a child that absorbed its right neighbour keeps
/// its subtree.
#[verifier::spinoff_prover]
pub proof fn lemma_parent_merge<K: TreeKey, V>(
    ns0: NodeViews<K, V>,
    ns1: NodeViews<K, V>,
    p: NodeRef<K, V>,
    h: nat,
    lo: Option<int>,
    hi: Option<int>,
    after: NodeId,
    j: int,
)
    requires
        wf_node(ns0, p, h, lo, hi, after),
        p is Branch,
        0 <= j,
        j + 1 < ns0.branches[p.spec_id()].children.len(),
        ns1.branches.contains_key(p.spec_id()),
        ns1.branches[p.spec_id()] == (BranchView {
            keys: ns0.branches[p.spec_id()].keys.remove(j),
            children: ns0.branches[p.spec_id()].children.remove(j + 1),
        }),
        pair_frame(ns0, ns1, ns0.branches[p.spec_id()], (h - 1) as nat, j),
        merge_ok(ns0, ns1, ns0.branches[p.spec_id()], (h - 1) as nat, lo, hi, after, j),
        forall|x: NodeRef<K, V>| ns0.has(x) && !in_tree(ns0, p, h, x) ==> #[trigger] ns0.same_node(ns1, x),
        no_new(ns0, ns1),
    ensures
        subtree_kept(ns0, ns1, p, h, lo, hi, after, content(ns0, p, h)),
{
    let b = ns0.branches[p.spec_id()];
    let ch = (h - 1) as nat;
    lemma_wf_branch_unfold(ns0, p, h, lo, hi, after);
    lemma_body_merge(ns0, ns1, b, ch, lo, hi, after, j);
    crate::rebalance_lemmas::lemma_merge_kept(ns0, ns1, b, ch, lo, hi, after, j);
    let b1 = BranchView { keys: b.keys.remove(j), children: b.children.remove(j + 1) };
    assert forall|t: int| 0 <= t < b1.children.len() implies !#[trigger] in_tree(ns1, b1.children[t], ch, p) by {
        if in_tree(ns1, b1.children[t], ch, p) {
            assert(in_children(ns1, b1.children, ch, p));
            assert(in_children(ns0, b.children, ch, p));
            let u = choose|u: int| 0 <= u < b.children.len() && #[trigger] in_tree(ns0, b.children[u], ch, p);
        }
    }
    lemma_wf_branch_unfold(ns1, p, h, lo, hi, after);
    assert forall|x: NodeRef<K, V>| #[trigger] in_tree(ns1, p, h, x) implies in_tree(ns0, p, h, x) by {
        lemma_in_tree_unfold(ns1, p, h, x);
        lemma_in_tree_unfold(ns0, p, h, x);
        if x != p {
            assert(in_children(ns1, b1.children, ch, x));
        }
    }
    assert forall|x: NodeRef<K, V>| ns1.has(x) && in_tree(ns0, p, h, x) implies #[trigger] in_tree(ns1, p, h, x) by {
        lemma_in_tree_unfold(ns1, p, h, x);
        lemma_in_tree_unfold(ns0, p, h, x);
    }
}

/// The children of a well-formed branch one level above the leaves are
/// distinct leaves, each well-formed in its place.
pub proof fn lemma_leaf_children<K: TreeKey, V>(
    ns: NodeViews<K, V>,
    p: NodeRef<K, V>,
    h: nat,
    lo: Option<int>,
    hi: Option<int>,
    after: NodeId,
)
    requires
        wf_node(ns, p, h, lo, hi, after),
        p is Branch,
        h == 1,
    ensures
        ({
            let b = ns.branches[p.spec_id()];
            &&& ns.branches.contains_key(p.spec_id())
            &&& wf_branch(ns, b, 0, lo, hi, after, p)
            &&& forall|t: int| 0 <= t < b.children.len() ==> {
                &&& (#[trigger] b.children[t]) is Leaf
                &&& ns.leaves.contains_key(b.children[t].spec_id())
                &&& wf_leaf(ns.leaves[b.children[t].spec_id()], child_lo(b.keys, t, lo), child_hi(b.keys, t, hi),
                    child_after(ns, b.children, t, 0, after))
                &&& leaf_seq(ns, b.children[t], 0) == seq![b.children[t].spec_id()]
                &&& content(ns, b.children[t], 0) == leaf_entries(ns.leaves[b.children[t].spec_id()])
                &&& forall|x: NodeRef<K, V>| #[trigger] in_tree(ns, b.children[t], 0, x) == (x == b.children[t])
            }
            &&& forall|t: int, u: int| 0 <= t < u < b.children.len() ==> #[trigger] b.children[t] != #[trigger] b.children[u]
            &&& forall|t: int| 0 <= t < b.children.len() ==> #[trigger] b.children[t] != p
        }),
{
    let b = ns.branches[p.spec_id()];
    lemma_wf_branch_unfold(ns, p, h, lo, hi, after);
    assert forall|t: int| 0 <= t < b.children.len() implies {
        &&& (#[trigger] b.children[t]) is Leaf
        &&& ns.leaves.contains_key(b.children[t].spec_id())
        &&& wf_leaf(ns.leaves[b.children[t].spec_id()], child_lo(b.keys, t, lo), child_hi(b.keys, t, hi),
            child_after(ns, b.children, t, 0, after))
        &&& leaf_seq(ns, b.children[t], 0) == seq![b.children[t].spec_id()]
        &&& content(ns, b.children[t], 0) == leaf_entries(ns.leaves[b.children[t].spec_id()])
        &&& forall|x: NodeRef<K, V>| #[trigger] in_tree(ns, b.children[t], 0, x) == (x == b.children[t])
    } by {
        assert(wf_node(ns, b.children[t], 0, child_lo(b.keys, t, lo), child_hi(b.keys, t, hi),
            child_after(ns, b.children, t, 0, after)));
        lemma_wf_basic(ns, b.children[t], 0, child_lo(b.keys, t, lo), child_hi(b.keys, t, hi),
            child_after(ns, b.children, t, 0, after));
    }
    assert forall|t: int, u: int| 0 <= t < u < b.children.len() implies #[trigger] b.children[t] != #[trigger] b.children[u] by {
        assert(in_tree(ns, b.children[t], 0, b.children[t]));
    }
    assert forall|t: int| 0 <= t < b.children.len() implies #[trigger] b.children[t] != p by {
        assert(!in_tree(ns, b.children[t], 0, p));
    }
}

/// The two leaves' bounds around separator `j` of a branch above leaves.
proof fn lemma_leaf_pair_bounds<K: TreeKey, V>(
    ns: NodeViews<K, V>,
    p: NodeRef<K, V>,
    lo: Option<int>,
    hi: Option<int>,
    after: NodeId,
    j: int,
)
    requires
        wf_node(ns, p, 1, lo, hi, after),
        p is Branch,
        0 <= j,
        j + 1 < ns.branches[p.spec_id()].children.len(),
    ensures
        ({
            let b = ns.branches[p.spec_id()];
            &&& child_hi(b.keys, j, hi) == Some(b.keys[j].rank())
            &&& child_lo(b.keys, j + 1, lo) == Some(b.keys[j].rank())
            &&& (child_lo(b.keys, j, lo) matches Some(x) ==> x < b.keys[j].rank())
            &&& (child_hi(b.keys, j + 1, hi) matches Some(y) ==> b.keys[j].rank() < y)
            &&& child_after(ns, b.children, j, 0, after) == b.children[j + 1].spec_id()
        }),
{
    let b = ns.branches[p.spec_id()];
    lemma_leaf_children(ns, p, 1, lo, hi, after);
    if j > 0 {
        assert(b.keys[j - 1].rank() < b.keys[j].rank());
    }
    if j + 1 < b.keys.len() {
        assert(b.keys[j].rank() < b.keys[j + 1].rank());
    }
    assert(rank_in(b.keys[j].rank(), lo, hi));
    assert(leaf_seq(ns, b.children[j + 1], 0) == seq![b.children[j + 1].spec_id()]);
}

/// A leaf that gave its last entry to its right neighbour, the entry's key
/// becoming their separator.
#[verifier::spinoff_prover]
pub proof fn lemma_leaf_borrow_left<K: TreeKey, V>(
    ns0: NodeViews<K, V>,
    ns1: NodeViews<K, V>,
    p: NodeRef<K, V>,
    lo: Option<int>,
    hi: Option<int>,
    after: NodeId,
    j: int,
)
    requires
        wf_node(ns0, p, 1, lo, hi, after),
        p is Branch,
        0 <= j,
        j + 1 < ns0.branches[p.spec_id()].children.len(),
        ({
            let b = ns0.branches[p.spec_id()];
            let l = b.children[j];
            let c = b.children[j + 1];
            let lv = ns0.leaves[l.spec_id()];
            let cv = ns0.leaves[c.spec_id()];
            &&& lv.keys.len() >= 2
            &&& ns1.leaves.contains_key(l.spec_id())
            &&& ns1.leaves[l.spec_id()] == (LeafView { keys: lv.keys.drop_last(), values: lv.values.drop_last(), next: lv.next })
            &&& ns1.leaves.contains_key(c.spec_id())
            &&& ns1.leaves[c.spec_id()] == (LeafView {
                keys: cv.keys.insert(0, lv.keys.last()),
                values: cv.values.insert(0, lv.values.last()),
                next: cv.next,
            })
            &&& ns1.branches.contains_key(p.spec_id())
            &&& ns1.branches[p.spec_id()] == (BranchView { keys: b.keys.update(j, lv.keys.last()), children: b.children })
            &&& changed_only(ns0, ns1, p, l, c)
        }),
        no_new(ns0, ns1),
    ensures
        subtree_kept(ns0, ns1, p, 1, lo, hi, after, content(ns0, p, 1)),
{
    let b = ns0.branches[p.spec_id()];
    let ks = b.keys;
    let cs = b.children;
    let l = cs[j];
    let c = cs[j + 1];
    let lv = ns0.leaves[l.spec_id()];
    let cv = ns0.leaves[c.spec_id()];
    let k = lv.keys.last();
    lemma_leaf_children(ns0, p, 1, lo, hi, after);
    lemma_leaf_pair_bounds(ns0, p, lo, hi, after, j);
    assert(l != c);
    assert(l != p && c != p);
    assert(l.spec_id() != c.spec_id());
    let nl = lv.keys.len() as int;
    assert(lv.keys[0].rank() < lv.keys[nl - 1].rank());
    assert(rank_in(lv.keys[nl - 1].rank(), child_lo(ks, j, lo), Some(ks[j].rank())));
    assert(rank_in(lv.keys[0].rank(), child_lo(ks, j, lo), Some(ks[j].rank())));
    let l1 = ns1.leaves[l.spec_id()];
    let c1 = ns1.leaves[c.spec_id()];
    assert(wf_leaf(l1, child_lo(ks, j, lo), Some(k.rank()), c.spec_id())) by {
        assert forall|p1: int, q1: int| 0 <= p1 < q1 < l1.keys.len() implies #[trigger] l1.keys[p1].rank() < #[trigger] l1.keys[q1].rank() by {
            assert(lv.keys[p1].rank() < lv.keys[q1].rank());
        }
        assert forall|t: int| 0 <= t < l1.keys.len() implies rank_in(#[trigger] l1.keys[t].rank(), child_lo(ks, j, lo), Some(k.rank())) by {
            assert(lv.keys[t].rank() < lv.keys[nl - 1].rank());
            assert(rank_in(lv.keys[t].rank(), child_lo(ks, j, lo), Some(ks[j].rank())));
        }
    }
    assert(wf_leaf(c1, Some(k.rank()), child_hi(ks, j + 1, hi), child_after(ns0, cs, j + 1, 0, after))) by {
        assert forall|p1: int, q1: int| 0 <= p1 < q1 < c1.keys.len() implies #[trigger] c1.keys[p1].rank() < #[trigger] c1.keys[q1].rank() by {
            if p1 == 0 {
                assert(c1.keys[q1] == cv.keys[q1 - 1]);
                assert(rank_in(cv.keys[q1 - 1].rank(), Some(ks[j].rank()), child_hi(ks, j + 1, hi)));
            } else {
                assert(cv.keys[p1 - 1].rank() < cv.keys[q1 - 1].rank());
            }
        }
        assert forall|t: int| 0 <= t < c1.keys.len() implies rank_in(#[trigger] c1.keys[t].rank(), Some(k.rank()), child_hi(ks, j + 1, hi)) by {
            if t > 0 {
                assert(c1.keys[t] == cv.keys[t - 1]);
                assert(rank_in(cv.keys[t - 1].rank(), Some(ks[j].rank()), child_hi(ks, j + 1, hi)));
            }
        }
    }
    assert(leaf_seq(ns1, c, 0)[0] == c.spec_id());
    assert(wf_node(ns1, l, 0, child_lo(ks, j, lo), Some(k.rank()), leaf_seq(ns1, c, 0)[0]));
    assert(wf_node(ns1, c, 0, Some(k.rank()), child_hi(ks, j + 1, hi), child_after(ns0, cs, j + 1, 0, after)));
    assert(forall|x: NodeRef<K, V>| #[trigger] in_tree(ns1, l, 0, x) == (x == l));
    assert(forall|x: NodeRef<K, V>| #[trigger] in_tree(ns1, c, 0, x) == (x == c));
    lemma_zip(lv.keys, lv.values);
    lemma_zip(cv.keys, cv.values);
    assert(lv.keys.drop_last() + cv.keys.insert(0, k) =~= lv.keys + cv.keys);
    assert(lv.values.drop_last() + cv.values.insert(0, lv.values.last()) =~= lv.values + cv.values);
    lemma_zip_add(lv.keys.drop_last(), lv.values.drop_last(), cv.keys.insert(0, k), cv.values.insert(0, lv.values.last()));
    lemma_zip_add(lv.keys, lv.values, cv.keys, cv.values);
    assert(pair_ok(ns0, ns1, b, 0, lo, hi, after, j, k));
    assert forall|x: NodeRef<K, V>| in_children(ns0, cs, 0, x) && !in_tree(ns0, cs[j], 0, x) && !in_tree(ns0, cs[j + 1], 0, x)
        implies #[trigger] ns0.same_node(ns1, x) by {
        let t = choose|t: int| 0 <= t < cs.len() && #[trigger] in_tree(ns0, cs[t], 0, x);
        assert(x == cs[t]);
    }
    assert forall|x: NodeRef<K, V>| ns0.has(x) && !in_tree(ns0, p, 1, x) implies #[trigger] ns0.same_node(ns1, x) by {
        lemma_in_tree_unfold(ns0, p, 1, x);
        assert(!in_tree(ns0, cs[j], 0, x));
        assert(!in_tree(ns0, cs[j + 1], 0, x));
    }
    lemma_parent_pair(ns0, ns1, p, 1, lo, hi, after, j, k);
}

/// A leaf that took the first entry of its right neighbour, whose new
/// first key becomes their separator.
#[verifier::spinoff_prover]
pub proof fn lemma_leaf_borrow_right<K: TreeKey, V>(
    ns0: NodeViews<K, V>,
    ns1: NodeViews<K, V>,
    p: NodeRef<K, V>,
    lo: Option<int>,
    hi: Option<int>,
    after: NodeId,
    j: int,
)
    requires
        wf_node(ns0, p, 1, lo, hi, after),
        p is Branch,
        0 <= j,
        j + 1 < ns0.branches[p.spec_id()].children.len(),
        ({
            let b = ns0.branches[p.spec_id()];
            let c = b.children[j];
            let r = b.children[j + 1];
            let cv = ns0.leaves[c.spec_id()];
            let rv = ns0.leaves[r.spec_id()];
            &&& rv.keys.len() >= 2
            &&& ns1.leaves.contains_key(c.spec_id())
            &&& ns1.leaves[c.spec_id()] == (LeafView {
                keys: cv.keys.push(rv.keys[0]),
                values: cv.values.push(rv.values[0]),
                next: cv.next,
            })
            &&& ns1.leaves.contains_key(r.spec_id())
            &&& ns1.leaves[r.spec_id()] == (LeafView { keys: rv.keys.remove(0), values: rv.values.remove(0), next: rv.next })
            &&& ns1.branches.contains_key(p.spec_id())
            &&& ns1.branches[p.spec_id()] == (BranchView { keys: b.keys.update(j, rv.keys[1]), children: b.children })
            &&& changed_only(ns0, ns1, p, c, r)
        }),
        no_new(ns0, ns1),
    ensures
        subtree_kept(ns0, ns1, p, 1, lo, hi, after, content(ns0, p, 1)),
{
    let b = ns0.branches[p.spec_id()];
    let ks = b.keys;
    let cs = b.children;
    let c = cs[j];
    let r = cs[j + 1];
    let cv = ns0.leaves[c.spec_id()];
    let rv = ns0.leaves[r.spec_id()];
    let m = rv.keys[1];
    lemma_leaf_children(ns0, p, 1, lo, hi, after);
    lemma_leaf_pair_bounds(ns0, p, lo, hi, after, j);
    assert(c != r);
    assert(c != p && r != p);
    assert(c.spec_id() != r.spec_id());
    assert(rv.keys[0].rank() < rv.keys[1].rank());
    assert(rank_in(rv.keys[0].rank(), Some(ks[j].rank()), child_hi(ks, j + 1, hi)));
    assert(rank_in(rv.keys[1].rank(), Some(ks[j].rank()), child_hi(ks, j + 1, hi)));
    let c1 = ns1.leaves[c.spec_id()];
    let r1 = ns1.leaves[r.spec_id()];
    let nc = cv.keys.len() as int;
    assert(wf_leaf(c1, child_lo(ks, j, lo), Some(m.rank()), r.spec_id())) by {
        assert forall|p1: int, q1: int| 0 <= p1 < q1 < c1.keys.len() implies #[trigger] c1.keys[p1].rank() < #[trigger] c1.keys[q1].rank() by {
            if q1 == nc {
                assert(rank_in(cv.keys[p1].rank(), child_lo(ks, j, lo), Some(ks[j].rank())));
            } else {
                assert(cv.keys[p1].rank() < cv.keys[q1].rank());
            }
        }
        assert forall|t: int| 0 <= t < c1.keys.len() implies rank_in(#[trigger] c1.keys[t].rank(), child_lo(ks, j, lo), Some(m.rank())) by {
            if t < nc {
                assert(rank_in(cv.keys[t].rank(), child_lo(ks, j, lo), Some(ks[j].rank())));
            }
        }
    }
    assert(wf_leaf(r1, Some(m.rank()), child_hi(ks, j + 1, hi), child_after(ns0, cs, j + 1, 0, after))) by {
        assert forall|p1: int, q1: int| 0 <= p1 < q1 < r1.keys.len() implies #[trigger] r1.keys[p1].rank() < #[trigger] r1.keys[q1].rank() by {
            assert(rv.keys[p1 + 1].rank() < rv.keys[q1 + 1].rank());
        }
        assert forall|t: int| 0 <= t < r1.keys.len() implies rank_in(#[trigger] r1.keys[t].rank(), Some(m.rank()), child_hi(ks, j + 1, hi)) by {
            assert(r1.keys[t] == rv.keys[t + 1]);
            assert(rank_in(rv.keys[t + 1].rank(), Some(ks[j].rank()), child_hi(ks, j + 1, hi)));
            if t > 0 {
                assert(rv.keys[1].rank() < rv.keys[t + 1].rank());
            }
        }
    }
    assert(leaf_seq(ns1, r, 0)[0] == r.spec_id());
    assert(wf_node(ns1, c, 0, child_lo(ks, j, lo), Some(m.rank()), leaf_seq(ns1, r, 0)[0]));
    assert(wf_node(ns1, r, 0, Some(m.rank()), child_hi(ks, j + 1, hi), child_after(ns0, cs, j + 1, 0, after)));
    assert(forall|x: NodeRef<K, V>| #[trigger] in_tree(ns1, c, 0, x) == (x == c));
    assert(forall|x: NodeRef<K, V>| #[trigger] in_tree(ns1, r, 0, x) == (x == r));
    lemma_zip(cv.keys, cv.values);
    lemma_zip(rv.keys, rv.values);
    assert(cv.keys.push(rv.keys[0]) + rv.keys.remove(0) =~= cv.keys + rv.keys);
    assert(cv.values.push(rv.values[0]) + rv.values.remove(0) =~= cv.values + rv.values);
    lemma_zip_add(cv.keys.push(rv.keys[0]), cv.values.push(rv.values[0]), rv.keys.remove(0), rv.values.remove(0));
    lemma_zip_add(cv.keys, cv.values, rv.keys, rv.values);
    assert(child_lo(ks, j, lo) matches Some(x) ==> x < m.rank());
    assert(pair_ok(ns0, ns1, b, 0, lo, hi, after, j, m));
    assert forall|x: NodeRef<K, V>| in_children(ns0, cs, 0, x) && !in_tree(ns0, cs[j], 0, x) && !in_tree(ns0, cs[j + 1], 0, x)
        implies #[trigger] ns0.same_node(ns1, x) by {
        let t = choose|t: int| 0 <= t < cs.len() && #[trigger] in_tree(ns0, cs[t], 0, x);
        assert(x == cs[t]);
    }
    assert forall|x: NodeRef<K, V>| ns0.has(x) && !in_tree(ns0, p, 1, x) implies #[trigger] ns0.same_node(ns1, x) by {
        lemma_in_tree_unfold(ns0, p, 1, x);
        assert(!in_tree(ns0, cs[j], 0, x));
        assert(!in_tree(ns0, cs[j + 1], 0, x));
    }
    lemma_parent_pair(ns0, ns1, p, 1, lo, hi, after, j, m);
}

/// A leaf that absorbed its right neighbour, which is gone, with the
/// separator between them dropped.
#[verifier::spinoff_prover]
pub proof fn lemma_leaf_merge<K: TreeKey, V>(
    ns0: NodeViews<K, V>,
    ns1: NodeViews<K, V>,
    p: NodeRef<K, V>,
    lo: Option<int>,
    hi: Option<int>,
    after: NodeId,
    j: int,
)
    requires
        wf_node(ns0, p, 1, lo, hi, after),
        p is Branch,
        0 <= j,
        j + 1 < ns0.branches[p.spec_id()].children.len(),
        ({
            let b = ns0.branches[p.spec_id()];
            let l = b.children[j];
            let r = b.children[j + 1];
            let lv = ns0.leaves[l.spec_id()];
            let rv = ns0.leaves[r.spec_id()];
            &&& ns1.leaves.contains_key(l.spec_id())
            &&& ns1.leaves[l.spec_id()] == (LeafView { keys: lv.keys + rv.keys, values: lv.values + rv.values, next: rv.next })
            &&& ns1.branches.contains_key(p.spec_id())
            &&& ns1.branches[p.spec_id()] == (BranchView { keys: b.keys.remove(j), children: b.children.remove(j + 1) })
            &&& !ns1.leaves.contains_key(r.spec_id())
            &&& changed_only(ns0, ns1, p, l, r)
        }),
        no_new(ns0, ns1),
    ensures
        subtree_kept(ns0, ns1, p, 1, lo, hi, after, content(ns0, p, 1)),
{
    let b = ns0.branches[p.spec_id()];
    let ks = b.keys;
    let cs = b.children;
    let l = cs[j];
    let r = cs[j + 1];
    let lv = ns0.leaves[l.spec_id()];
    let rv = ns0.leaves[r.spec_id()];
    lemma_leaf_children(ns0, p, 1, lo, hi, after);
    lemma_leaf_pair_bounds(ns0, p, lo, hi, after, j);
    assert(l != r);
    assert(l != p && r != p);
    let l1 = ns1.leaves[l.spec_id()];
    let nl = lv.keys.len() as int;
    assert(wf_leaf(l1, child_lo(ks, j, lo), child_hi(ks, j + 1, hi), child_after(ns0, cs, j + 1, 0, after))) by {
        assert forall|p1: int, q1: int| 0 <= p1 < q1 < l1.keys.len() implies #[trigger] l1.keys[p1].rank() < #[trigger] l1.keys[q1].rank() by {
            if q1 < nl {
                assert(lv.keys[p1].rank() < lv.keys[q1].rank());
            } else if p1 >= nl {
                assert(rv.keys[p1 - nl].rank() < rv.keys[q1 - nl].rank());
            } else {
                assert(rank_in(lv.keys[p1].rank(), child_lo(ks, j, lo), Some(ks[j].rank())));
                assert(rank_in(rv.keys[q1 - nl].rank(), Some(ks[j].rank()), child_hi(ks, j + 1, hi)));
            }
        }
        assert forall|t: int| 0 <= t < l1.keys.len() implies rank_in(#[trigger] l1.keys[t].rank(), child_lo(ks, j, lo), child_hi(ks, j + 1, hi)) by {
            if t < nl {
                assert(rank_in(lv.keys[t].rank(), child_lo(ks, j, lo), Some(ks[j].rank())));
            } else {
                assert(rank_in(rv.keys[t - nl].rank(), Some(ks[j].rank()), child_hi(ks, j + 1, hi)));
            }
        }
    }
    assert(wf_node(ns1, l, 0, child_lo(ks, j, lo), child_hi(ks, j + 1, hi), child_after(ns0, cs, j + 1, 0, after)));
    assert(forall|x: NodeRef<K, V>| #[trigger] in_tree(ns1, l, 0, x) == (x == l));
    lemma_zip(lv.keys, lv.values);
    lemma_zip(rv.keys, rv.values);
    lemma_zip_add(lv.keys, lv.values, rv.keys, rv.values);
    assert(merge_ok(ns0, ns1, b, 0, lo, hi, after, j));
    assert forall|x: NodeRef<K, V>| in_children(ns0, cs, 0, x) && !in_tree(ns0, cs[j], 0, x) && !in_tree(ns0, cs[j + 1], 0, x)
        implies #[trigger] ns0.same_node(ns1, x) by {
        let t = choose|t: int| 0 <= t < cs.len() && #[trigger] in_tree(ns0, cs[t], 0, x);
        assert(x == cs[t]);
    }
    assert forall|x: NodeRef<K, V>| ns0.has(x) && !in_tree(ns0, p, 1, x) implies #[trigger] ns0.same_node(ns1, x) by {
        lemma_in_tree_unfold(ns0, p, 1, x);
        assert(!in_tree(ns0, cs[j], 0, x));
        assert(!in_tree(ns0, cs[j + 1], 0, x));
    }
    lemma_parent_merge(ns0, ns1, p, 1, lo, hi, after, j);
}

/// The children of a well-formed branch two or more levels above the
/// leaves are distinct branches, each well-formed in its place.
pub proof fn lemma_branch_children<K: TreeKey, V>(
    ns: NodeViews<K, V>,
    p: NodeRef<K, V>,
    h: nat,
    lo: Option<int>,
    hi: Option<int>,
    after: NodeId,
)
    requires
        wf_node(ns, p, h, lo, hi, after),
        p is Branch,
        h >= 2,
    ensures
        ({
            let b = ns.branches[p.spec_id()];
            let ch = (h - 1) as nat;
            let ch2 = (h - 2) as nat;
            &&& ns.branches.contains_key(p.spec_id())
            &&& wf_branch(ns, b, ch, lo, hi, after, p)
            &&& forall|t: int| 0 <= t < b.children.len() ==> {
                &&& (#[trigger] b.children[t]) is Branch
                &&& ns.branches.contains_key(b.children[t].spec_id())
                &&& wf_branch(ns, ns.branches[b.children[t].spec_id()], ch2, child_lo(b.keys, t, lo),
                    child_hi(b.keys, t, hi), child_after(ns, b.children, t, ch, after), b.children[t])
                &&& leaf_seq(ns, b.children[t], ch) == children_leaf_seq(ns, ns.branches[b.children[t].spec_id()].children, ch2)
                &&& content(ns, b.children[t], ch) == children_contents(ns, ns.branches[b.children[t].spec_id()].children, ch2).flatten()
                &&& forall|x: NodeRef<K, V>| #[trigger] in_tree(ns, b.children[t], ch, x) == (x == b.children[t]
                    || in_children(ns, ns.branches[b.children[t].spec_id()].children, ch2, x))
            }
            &&& forall|t: int, u: int, x: NodeRef<K, V>| 0 <= t < u < b.children.len() && #[trigger] in_tree(ns, b.children[t], ch, x)
                ==> !#[trigger] in_tree(ns, b.children[u], ch, x)
            &&& forall|t: int| 0 <= t < b.children.len() ==> !#[trigger] in_tree(ns, b.children[t], ch, p)
            &&& forall|x: NodeRef<K, V>| #[trigger] in_children(ns, b.children, ch, x) ==> ns.has(x)
        }),
{
    let b = ns.branches[p.spec_id()];
    let ch = (h - 1) as nat;
    lemma_wf_branch_unfold(ns, p, h, lo, hi, after);
    assert forall|t: int| 0 <= t < b.children.len() implies {
        &&& (#[trigger] b.children[t]) is Branch
        &&& ns.branches.contains_key(b.children[t].spec_id())
        &&& wf_branch(ns, ns.branches[b.children[t].spec_id()], (h - 2) as nat, child_lo(b.keys, t, lo),
            child_hi(b.keys, t, hi), child_after(ns, b.children, t, ch, after), b.children[t])
        &&& leaf_seq(ns, b.children[t], ch) == children_leaf_seq(ns, ns.branches[b.children[t].spec_id()].children, (h - 2) as nat)
        &&& content(ns, b.children[t], ch) == children_contents(ns, ns.branches[b.children[t].spec_id()].children, (h - 2) as nat).flatten()
        &&& forall|x: NodeRef<K, V>| #[trigger] in_tree(ns, b.children[t], ch, x) == (x == b.children[t]
            || in_children(ns, ns.branches[b.children[t].spec_id()].children, (h - 2) as nat, x))
    } by {
        let c = b.children[t];
        assert(wf_node(ns, c, ch, child_lo(b.keys, t, lo), child_hi(b.keys, t, hi), child_after(ns, b.children, t, ch, after)));
        lemma_wf_basic(ns, c, ch, child_lo(b.keys, t, lo), child_hi(b.keys, t, hi), child_after(ns, b.children, t, ch, after));
        lemma_wf_branch_unfold(ns, c, ch, child_lo(b.keys, t, lo), child_hi(b.keys, t, hi), child_after(ns, b.children, t, ch, after));
        assert forall|x: NodeRef<K, V>| #[trigger] in_tree(ns, c, ch, x) == (x == c
            || in_children(ns, ns.branches[c.spec_id()].children, (h - 2) as nat, x)) by {
            lemma_in_tree_unfold(ns, c, ch, x);
        }
    }
    lemma_body_has(ns, b, ch, lo, hi, after);
}

/// Facts about two neighbouring branch children `j` and `j + 1`.
pub(crate) proof fn lemma_branch_pair_facts<K: TreeKey, V>(
    ns: NodeViews<K, V>,
    p: NodeRef<K, V>,
    h: nat,
    lo: Option<int>,
    hi: Option<int>,
    after: NodeId,
    j: int,
)
    requires
        wf_node(ns, p, h, lo, hi, after),
        p is Branch,
        h >= 2,
        0 <= j,
        j + 1 < ns.branches[p.spec_id()].children.len(),
    ensures
        ({
            let b = ns.branches[p.spec_id()];
            let ch = (h - 1) as nat;
            let ch2 = (h - 2) as nat;
            let l = b.children[j];
            let c = b.children[j + 1];
            let bl = ns.branches[l.spec_id()];
            let bc = ns.branches[c.spec_id()];
            let s = b.keys[j];
            &&& l != c && l != p && c != p
            &&& l.spec_id() != c.spec_id()
            &&& wf_branch_body(ns, bl, ch2, child_lo(b.keys, j, lo), Some(s.rank()), children_leaf_seq(ns, bc.children, ch2)[0])
            &&& wf_branch_body(ns, bc, ch2, Some(s.rank()), child_hi(b.keys, j + 1, hi), child_after(ns, b.children, j + 1, ch, after))
            &&& bodies_apart(ns, bl, bc, ch2)
            &&& (child_lo(b.keys, j, lo) matches Some(x) ==> x < s.rank())
            &&& (child_hi(b.keys, j + 1, hi) matches Some(y) ==> s.rank() < y)
            &&& !in_children(ns, bl.children, ch2, l) && !in_children(ns, bl.children, ch2, c) && !in_children(ns, bl.children, ch2, p)
            &&& !in_children(ns, bc.children, ch2, l) && !in_children(ns, bc.children, ch2, c) && !in_children(ns, bc.children, ch2, p)
        }),
{
    let b = ns.branches[p.spec_id()];
    let ch = (h - 1) as nat;
    let ch2 = (h - 2) as nat;
    let l = b.children[j];
    let c = b.children[j + 1];
    let bl = ns.branches[l.spec_id()];
    let bc = ns.branches[c.spec_id()];
    lemma_branch_children(ns, p, h, lo, hi, after);
    assert(in_tree(ns, l, ch, l));
    assert(in_tree(ns, c, ch, c));
    assert(!in_tree(ns, c, ch, l));
    assert(child_after(ns, b.children, j, ch, after) == leaf_seq(ns, c, ch)[0]);
    assert forall|x: NodeRef<K, V>| #[trigger] in_children(ns, bl.children, ch2, x) implies !in_children(ns, bc.children, ch2, x) by {
        assert(in_tree(ns, l, ch, x));
        if in_children(ns, bc.children, ch2, x) {
            assert(in_tree(ns, c, ch, x));
        }
    }
    if in_children(ns, bl.children, ch2, l) {
        let u = choose|u: int| 0 <= u < bl.children.len() && #[trigger] in_tree(ns, bl.children[u], ch2, l);
    }
    if in_children(ns, bc.children, ch2, c) {
        let u = choose|u: int| 0 <= u < bc.children.len() && #[trigger] in_tree(ns, bc.children[u], ch2, c);
    }
    if in_children(ns, bl.children, ch2, c) {
        assert(in_tree(ns, l, ch, c));
    }
    if in_children(ns, bc.children, ch2, l) {
        assert(in_tree(ns, c, ch, l));
    }
    if in_children(ns, bl.children, ch2, p) {
        assert(in_tree(ns, l, ch, p));
    }
    if in_children(ns, bc.children, ch2, p) {
        assert(in_tree(ns, c, ch, p));
    }
    if j > 0 {
        assert(b.keys[j - 1].rank() < b.keys[j].rank());
    }
    if j + 1 < b.keys.len() {
        assert(b.keys[j].rank() < b.keys[j + 1].rank());
    }
    assert(rank_in(b.keys[j].rank(), lo, hi));
}

/// Redrawing the line between two neighbouring child sequences keeps every
/// node under one of them under one of the new ones.
proof fn lemma_children_regrouped<K, V>(
    ns: NodeViews<K, V>,
    a: Seq<NodeRef<K, V>>,
    c: Seq<NodeRef<K, V>>,
    a2: Seq<NodeRef<K, V>>,
    c2: Seq<NodeRef<K, V>>,
    ch: nat,
)
    requires
        a + c == a2 + c2,
    ensures
        forall|x: NodeRef<K, V>|
            #![trigger in_children(ns, a2, ch, x)]
            #![trigger in_children(ns, c2, ch, x)]
            in_children(ns, a, ch, x) || in_children(ns, c, ch, x) ==> in_children(ns, a2, ch, x) || in_children(ns, c2, ch, x),
{
    let s = a + c;
    assert(s.len() == (a2 + c2).len());
    assert forall|x: NodeRef<K, V>|
        #![trigger in_children(ns, a2, ch, x)]
        #![trigger in_children(ns, c2, ch, x)]
        in_children(ns, a, ch, x) || in_children(ns, c, ch, x) implies in_children(ns, a2, ch, x) || in_children(ns, c2, ch, x) by {
        let t: int = if in_children(ns, a, ch, x) {
            let u = choose|u: int| 0 <= u < a.len() && #[trigger] in_tree(ns, a[u], ch, x);
            assert(s[u] == a[u]);
            u
        } else {
            let u = choose|u: int| 0 <= u < c.len() && #[trigger] in_tree(ns, c[u], ch, x);
            assert(s[a.len() + u] == c[u]);
            a.len() + u
        };
        assert(0 <= t < s.len());
        assert(in_tree(ns, s[t], ch, x));
        if t < a2.len() {
            assert(s[t] == a2[t]);
            assert(in_tree(ns, a2[t], ch, x));
        } else {
            assert(s[t] == c2[t - a2.len()]);
            assert(in_tree(ns, c2[t - a2.len()], ch, x));
        }
    }
}

/// A branch child that is `n` in the new views with body `nb`, framed from
/// the old views, is well-formed there and keeps its parts.
proof fn lemma_moved_body<K: TreeKey, V>(
    ns0: NodeViews<K, V>,
    ns1: NodeViews<K, V>,
    n: NodeRef<K, V>,
    nb: BranchView<K, V>,
    ch: nat,
    lo: Option<int>,
    hi: Option<int>,
    after: NodeId,
)
    requires
        n is Branch,
        wf_branch_body(ns0, nb, (ch - 1) as nat, lo, hi, after),
        ch >= 1,
        ns1.branches.contains_key(n.spec_id()),
        ns1.branches[n.spec_id()] == nb,
        !in_children(ns0, nb.children, (ch - 1) as nat, n),
        forall|x: NodeRef<K, V>| #[trigger] in_children(ns0, nb.children, (ch - 1) as nat, x) ==> ns0.same_node(ns1, x),
    ensures
        wf_node(ns1, n, ch, lo, hi, after),
        leaf_seq(ns1, n, ch) == children_leaf_seq(ns0, nb.children, (ch - 1) as nat),
        content(ns1, n, ch) == children_contents(ns0, nb.children, (ch - 1) as nat).flatten(),
        forall|x: NodeRef<K, V>| #[trigger] in_tree(ns1, n, ch, x) == (x == n || in_children(ns0, nb.children, (ch - 1) as nat, x)),
{
    let c2 = (ch - 1) as nat;
    lemma_body_frame(ns0, ns1, nb, c2, lo, hi, after);
    assert forall|t: int| 0 <= t < nb.children.len() implies !#[trigger] in_tree(ns1, nb.children[t], c2, n) by {
        if in_tree(ns1, nb.children[t], c2, n) {
            assert(in_children(ns1, nb.children, c2, n));
        }
    }
    lemma_wf_branch_unfold(ns1, n, ch, lo, hi, after);
    assert forall|x: NodeRef<K, V>| #[trigger] in_tree(ns1, n, ch, x) == (x == n || in_children(ns0, nb.children, c2, x)) by {
        lemma_in_tree_unfold(ns1, n, ch, x);
    }
}

/// A branch child that gave its last child to its right neighbour, its
/// last key becoming their separator.
#[verifier::spinoff_prover]
#[verifier::rlimit(40)]
pub proof fn lemma_branch_borrow_left<K: TreeKey, V>(
    ns0: NodeViews<K, V>,
    ns1: NodeViews<K, V>,
    p: NodeRef<K, V>,
    h: nat,
    lo: Option<int>,
    hi: Option<int>,
    after: NodeId,
    j: int,
)
    requires
        wf_node(ns0, p, h, lo, hi, after),
        p is Branch,
        h >= 2,
        0 <= j,
        j + 1 < ns0.branches[p.spec_id()].children.len(),
        ({
            let b = ns0.branches[p.spec_id()];
            let l = b.children[j];
            let c = b.children[j + 1];
            let bl = ns0.branches[l.spec_id()];
            let bc = ns0.branches[c.spec_id()];
            &&& bl.keys.len() >= 2
            &&& ns1.branches.contains_key(l.spec_id())
            &&& ns1.branches[l.spec_id()] == body_drop_last(bl)
            &&& ns1.branches.contains_key(c.spec_id())
            &&& ns1.branches[c.spec_id()] == body_push_front(bc, b.keys[j], bl.children.last())
            &&& ns1.branches.contains_key(p.spec_id())
            &&& ns1.branches[p.spec_id()] == (BranchView { keys: b.keys.update(j, bl.keys.last()), children: b.children })
            &&& changed_only(ns0, ns1, p, l, c)
        }),
        no_new(ns0, ns1),
    ensures
        subtree_kept(ns0, ns1, p, h, lo, hi, after, content(ns0, p, h)),
{
    let b = ns0.branches[p.spec_id()];
    let ks = b.keys;
    let cs = b.children;
    let ch = (h - 1) as nat;
    let ch2 = (h - 2) as nat;
    let l = cs[j];
    let c = cs[j + 1];
    let bl = ns0.branches[l.spec_id()];
    let bc = ns0.branches[c.spec_id()];
    let s = ks[j];
    let m = bl.keys.last();
    let bl2 = body_drop_last(bl);
    let bc2 = body_push_front(bc, s, bl.children.last());
    let clo = child_lo(ks, j, lo);
    let chi = child_hi(ks, j + 1, hi);
    let caf = child_after(ns0, cs, j + 1, ch, after);
    lemma_branch_children(ns0, p, h, lo, hi, after);
    lemma_branch_pair_facts(ns0, p, h, lo, hi, after, j);
    lemma_rotate_from_left(ns0, bl, bc, ch2, clo, s, chi, caf);
    assert forall|x: NodeRef<K, V>| #[trigger] in_children(ns0, bl2.children, ch2, x) implies ns0.same_node(ns1, x) by {
        assert(in_children(ns0, bl.children, ch2, x) || in_children(ns0, bc.children, ch2, x));
    }
    assert forall|x: NodeRef<K, V>| #[trigger] in_children(ns0, bc2.children, ch2, x) implies ns0.same_node(ns1, x) by {
        assert(in_children(ns0, bl.children, ch2, x) || in_children(ns0, bc.children, ch2, x));
    }
    assert(!in_children(ns0, bl2.children, ch2, l)) by {
        if in_children(ns0, bl2.children, ch2, l) {
            assert(in_children(ns0, bl.children, ch2, l) || in_children(ns0, bc.children, ch2, l));
        }
    }
    assert(!in_children(ns0, bc2.children, ch2, c)) by {
        if in_children(ns0, bc2.children, ch2, c) {
            assert(in_children(ns0, bl.children, ch2, c) || in_children(ns0, bc.children, ch2, c));
        }
    }
    lemma_moved_body(ns0, ns1, c, bc2, ch, Some(m.rank()), chi, caf);
    lemma_moved_body(ns0, ns1, l, bl2, ch, clo, Some(m.rank()), children_leaf_seq(ns0, bc2.children, ch2)[0]);
    assert(leaf_seq(ns0, l, ch) == children_leaf_seq(ns0, bl.children, ch2));
    assert forall|x: NodeRef<K, V>| #[trigger] in_tree(ns1, l, ch, x) implies in_tree(ns0, l, ch, x) || in_tree(ns0, c, ch, x) by {
        if x != l {
            assert(in_children(ns0, bl.children, ch2, x) || in_children(ns0, bc.children, ch2, x));
        }
    }
    assert forall|x: NodeRef<K, V>| #[trigger] in_tree(ns1, c, ch, x) implies in_tree(ns0, l, ch, x) || in_tree(ns0, c, ch, x) by {
        if x != c {
            assert(in_children(ns0, bl.children, ch2, x) || in_children(ns0, bc.children, ch2, x));
        }
    }
    assert forall|x: NodeRef<K, V>| #[trigger] in_tree(ns1, l, ch, x) implies !in_tree(ns1, c, ch, x) by {
        if x == l {
            if in_children(ns0, bc2.children, ch2, l) {
                assert(in_children(ns0, bl.children, ch2, l) || in_children(ns0, bc.children, ch2, l));
            }
        } else if x == c {
            if in_children(ns0, bl2.children, ch2, c) {
                assert(in_children(ns0, bl.children, ch2, c) || in_children(ns0, bc.children, ch2, c));
            }
        }
    }
    assert(bl.children + bc.children =~= bl2.children + bc2.children);
    lemma_children_regrouped(ns0, bl.children, bc.children, bl2.children, bc2.children, ch2);
    assert forall|x: NodeRef<K, V>| ns1.has(x) && (in_tree(ns0, l, ch, x) || in_tree(ns0, c, ch, x)) implies
        in_tree(ns1, l, ch, x) || in_tree(ns1, c, ch, x) by {
        lemma_in_tree_unfold(ns0, l, ch, x);
        lemma_in_tree_unfold(ns0, c, ch, x);
        if x != l && x != c {
            assert(in_children(ns0, bl2.children, ch2, x) || in_children(ns0, bc2.children, ch2, x));
        }
    }
    assert(pair_ok(ns0, ns1, b, ch, lo, hi, after, j, m));
    assert forall|x: NodeRef<K, V>| in_children(ns0, cs, ch, x) && !in_tree(ns0, cs[j], ch, x) && !in_tree(ns0, cs[j + 1], ch, x)
        implies #[trigger] ns0.same_node(ns1, x) by {
        assert(x != l && x != c);
        if x == p {
            let t = choose|t: int| 0 <= t < cs.len() && #[trigger] in_tree(ns0, cs[t], ch, x);
        }
    }
    assert forall|x: NodeRef<K, V>| ns0.has(x) && !in_tree(ns0, p, h, x) implies #[trigger] ns0.same_node(ns1, x) by {
        lemma_in_tree_unfold(ns0, p, h, x);
        assert(!in_tree(ns0, cs[j], ch, x));
        assert(!in_tree(ns0, cs[j + 1], ch, x));
        assert(in_tree(ns0, cs[j], ch, l));
    }
    lemma_parent_pair(ns0, ns1, p, h, lo, hi, after, j, m);
}

/// A branch child that took the first child of its right neighbour, whose
/// first key becomes their separator.
#[verifier::spinoff_prover]
#[verifier::rlimit(40)]
pub proof fn lemma_branch_borrow_right<K: TreeKey, V>(
    ns0: NodeViews<K, V>,
    ns1: NodeViews<K, V>,
    p: NodeRef<K, V>,
    h: nat,
    lo: Option<int>,
    hi: Option<int>,
    after: NodeId,
    j: int,
)
    requires
        wf_node(ns0, p, h, lo, hi, after),
        p is Branch,
        h >= 2,
        0 <= j,
        j + 1 < ns0.branches[p.spec_id()].children.len(),
        ({
            let b = ns0.branches[p.spec_id()];
            let c = b.children[j];
            let r = b.children[j + 1];
            let bc = ns0.branches[c.spec_id()];
            let br = ns0.branches[r.spec_id()];
            &&& br.keys.len() >= 1
            &&& ns1.branches.contains_key(c.spec_id())
            &&& ns1.branches[c.spec_id()] == body_push_back(bc, b.keys[j], br.children[0])
            &&& ns1.branches.contains_key(r.spec_id())
            &&& ns1.branches[r.spec_id()] == body_drop_first(br)
            &&& ns1.branches.contains_key(p.spec_id())
            &&& ns1.branches[p.spec_id()] == (BranchView { keys: b.keys.update(j, br.keys[0]), children: b.children })
            &&& changed_only(ns0, ns1, p, c, r)
        }),
        no_new(ns0, ns1),
    ensures
        subtree_kept(ns0, ns1, p, h, lo, hi, after, content(ns0, p, h)),
{
    let b = ns0.branches[p.spec_id()];
    let ks = b.keys;
    let cs = b.children;
    let ch = (h - 1) as nat;
    let ch2 = (h - 2) as nat;
    let c = cs[j];
    let r = cs[j + 1];
    let bc = ns0.branches[c.spec_id()];
    let br = ns0.branches[r.spec_id()];
    let s = ks[j];
    let m = br.keys[0];
    let bc2 = body_push_back(bc, s, br.children[0]);
    let br2 = body_drop_first(br);
    let clo = child_lo(ks, j, lo);
    let chi = child_hi(ks, j + 1, hi);
    let caf = child_after(ns0, cs, j + 1, ch, after);
    lemma_branch_children(ns0, p, h, lo, hi, after);
    lemma_branch_pair_facts(ns0, p, h, lo, hi, after, j);
    lemma_rotate_from_right(ns0, bc, br, ch2, clo, s, chi, caf);
    assert forall|x: NodeRef<K, V>| #[trigger] in_children(ns0, bc2.children, ch2, x) implies ns0.same_node(ns1, x) by {
        assert(in_children(ns0, bc.children, ch2, x) || in_children(ns0, br.children, ch2, x));
    }
    assert forall|x: NodeRef<K, V>| #[trigger] in_children(ns0, br2.children, ch2, x) implies ns0.same_node(ns1, x) by {
        assert(in_children(ns0, bc.children, ch2, x) || in_children(ns0, br.children, ch2, x));
    }
    assert(!in_children(ns0, bc2.children, ch2, c)) by {
        if in_children(ns0, bc2.children, ch2, c) {
            assert(in_children(ns0, bc.children, ch2, c) || in_children(ns0, br.children, ch2, c));
        }
    }
    assert(!in_children(ns0, br2.children, ch2, r)) by {
        if in_children(ns0, br2.children, ch2, r) {
            assert(in_children(ns0, bc.children, ch2, r) || in_children(ns0, br.children, ch2, r));
        }
    }
    lemma_moved_body(ns0, ns1, r, br2, ch, Some(m.rank()), chi, caf);
    lemma_moved_body(ns0, ns1, c, bc2, ch, clo, Some(m.rank()), children_leaf_seq(ns0, br2.children, ch2)[0]);
    assert(leaf_seq(ns0, c, ch) == children_leaf_seq(ns0, bc.children, ch2));
    assert forall|x: NodeRef<K, V>| #[trigger] in_tree(ns1, c, ch, x) implies in_tree(ns0, c, ch, x) || in_tree(ns0, r, ch, x) by {
        if x != c {
            assert(in_children(ns0, bc.children, ch2, x) || in_children(ns0, br.children, ch2, x));
        }
    }
    assert forall|x: NodeRef<K, V>| #[trigger] in_tree(ns1, r, ch, x) implies in_tree(ns0, c, ch, x) || in_tree(ns0, r, ch, x) by {
        if x != r {
            assert(in_children(ns0, bc.children, ch2, x) || in_children(ns0, br.children, ch2, x));
        }
    }
    assert forall|x: NodeRef<K, V>| #[trigger] in_tree(ns1, c, ch, x) implies !in_tree(ns1, r, ch, x) by {
        if x == c {
            if in_children(ns0, br2.children, ch2, c) {
                assert(in_children(ns0, bc.children, ch2, c) || in_children(ns0, br.children, ch2, c));
            }
        } else if x == r {
            if in_children(ns0, bc2.children, ch2, r) {
                assert(in_children(ns0, bc.children, ch2, r) || in_children(ns0, br.children, ch2, r));
            }
        }
    }
    assert(bc.children + br.children =~= bc2.children + br2.children);
    lemma_children_regrouped(ns0, bc.children, br.children, bc2.children, br2.children, ch2);
    assert forall|x: NodeRef<K, V>| ns1.has(x) && (in_tree(ns0, c, ch, x) || in_tree(ns0, r, ch, x)) implies
        in_tree(ns1, c, ch, x) || in_tree(ns1, r, ch, x) by {
        lemma_in_tree_unfold(ns0, c, ch, x);
        lemma_in_tree_unfold(ns0, r, ch, x);
        if x != c && x != r {
            assert(in_children(ns0, bc2.children, ch2, x) || in_children(ns0, br2.children, ch2, x));
        }
    }
    assert(pair_ok(ns0, ns1, b, ch, lo, hi, after, j, m));
    assert forall|x: NodeRef<K, V>| in_children(ns0, cs, ch, x) && !in_tree(ns0, cs[j], ch, x) && !in_tree(ns0, cs[j + 1], ch, x)
        implies #[trigger] ns0.same_node(ns1, x) by {
        assert(x != c && x != r);
        if x == p {
            let t = choose|t: int| 0 <= t < cs.len() && #[trigger] in_tree(ns0, cs[t], ch, x);
        }
    }
    assert forall|x: NodeRef<K, V>| ns0.has(x) && !in_tree(ns0, p, h, x) implies #[trigger] ns0.same_node(ns1, x) by {
        lemma_in_tree_unfold(ns0, p, h, x);
        assert(!in_tree(ns0, cs[j], ch, x));
        assert(!in_tree(ns0, cs[j + 1], ch, x));
    }
    lemma_parent_pair(ns0, ns1, p, h, lo, hi, after, j, m);
}

/// A branch child that absorbed its right neighbour, which is gone, with
/// the separator between them moved down into it.
#[verifier::spinoff_prover]
#[verifier::rlimit(40)]
pub proof fn lemma_branch_merge<K: TreeKey, V>(
    ns0: NodeViews<K, V>,
    ns1: NodeViews<K, V>,
    p: NodeRef<K, V>,
    h: nat,
    lo: Option<int>,
    hi: Option<int>,
    after: NodeId,
    j: int,
)
    requires
        wf_node(ns0, p, h, lo, hi, after),
        p is Branch,
        h >= 2,
        0 <= j,
        j + 1 < ns0.branches[p.spec_id()].children.len(),
        ({
            let b = ns0.branches[p.spec_id()];
            let l = b.children[j];
            let r = b.children[j + 1];
            let bl = ns0.branches[l.spec_id()];
            let br = ns0.branches[r.spec_id()];
            &&& ns1.branches.contains_key(l.spec_id())
            &&& ns1.branches[l.spec_id()] == body_join(bl, b.keys[j], br)
            &&& ns1.branches.contains_key(p.spec_id())
            &&& ns1.branches[p.spec_id()] == (BranchView { keys: b.keys.remove(j), children: b.children.remove(j + 1) })
            &&& !ns1.branches.contains_key(r.spec_id())
            &&& changed_only(ns0, ns1, p, l, r)
        }),
        no_new(ns0, ns1),
    ensures
        subtree_kept(ns0, ns1, p, h, lo, hi, after, content(ns0, p, h)),
{
    let b = ns0.branches[p.spec_id()];
    let ks = b.keys;
    let cs = b.children;
    let ch = (h - 1) as nat;
    let ch2 = (h - 2) as nat;
    let l = cs[j];
    let r = cs[j + 1];
    let bl = ns0.branches[l.spec_id()];
    let br = ns0.branches[r.spec_id()];
    let s = ks[j];
    let bj = body_join(bl, s, br);
    let clo = child_lo(ks, j, lo);
    let chi = child_hi(ks, j + 1, hi);
    let caf = child_after(ns0, cs, j + 1, ch, after);
    lemma_branch_children(ns0, p, h, lo, hi, after);
    lemma_branch_pair_facts(ns0, p, h, lo, hi, after, j);
    lemma_join_bodies(ns0, bl, br, ch2, clo, s, chi, caf);
    assert forall|x: NodeRef<K, V>| #[trigger] in_children(ns0, bj.children, ch2, x) implies ns0.same_node(ns1, x) by {
        assert(in_children(ns0, bl.children, ch2, x) || in_children(ns0, br.children, ch2, x));
    }
    assert(!in_children(ns0, bj.children, ch2, l)) by {
        if in_children(ns0, bj.children, ch2, l) {
            assert(in_children(ns0, bl.children, ch2, l) || in_children(ns0, br.children, ch2, l));
        }
    }
    lemma_moved_body(ns0, ns1, l, bj, ch, clo, chi, caf);
    assert(leaf_seq(ns0, l, ch) == children_leaf_seq(ns0, bl.children, ch2));
    assert forall|x: NodeRef<K, V>| #[trigger] in_tree(ns1, l, ch, x) implies in_tree(ns0, l, ch, x) || in_tree(ns0, r, ch, x) by {
        if x != l {
            assert(in_children(ns0, bl.children, ch2, x) || in_children(ns0, br.children, ch2, x));
        }
    }
    assert(bl.children + br.children =~= bj.children + Seq::<NodeRef<K, V>>::empty());
    lemma_children_regrouped(ns0, bl.children, br.children, bj.children, Seq::<NodeRef<K, V>>::empty(), ch2);
    assert forall|x: NodeRef<K, V>| ns1.has(x) && (in_tree(ns0, l, ch, x) || in_tree(ns0, r, ch, x)) implies
        #[trigger] in_tree(ns1, l, ch, x) by {
        lemma_in_tree_unfold(ns0, l, ch, x);
        lemma_in_tree_unfold(ns0, r, ch, x);
        if x != l && x != r {
            assert(in_children(ns0, bj.children, ch2, x) || in_children(ns0, Seq::<NodeRef<K, V>>::empty(), ch2, x));
        }
    }
    assert(merge_ok(ns0, ns1, b, ch, lo, hi, after, j));
    assert forall|x: NodeRef<K, V>| in_children(ns0, cs, ch, x) && !in_tree(ns0, cs[j], ch, x) && !in_tree(ns0, cs[j + 1], ch, x)
        implies #[trigger] ns0.same_node(ns1, x) by {
        assert(x != l && x != r);
        if x == p {
            let t = choose|t: int| 0 <= t < cs.len() && #[trigger] in_tree(ns0, cs[t], ch, x);
        }
    }
    assert forall|x: NodeRef<K, V>| ns0.has(x) && !in_tree(ns0, p, h, x) implies #[trigger] ns0.same_node(ns1, x) by {
        lemma_in_tree_unfold(ns0, p, h, x);
        assert(!in_tree(ns0, cs[j], ch, x));
        assert(!in_tree(ns0, cs[j + 1], ch, x));
    }
    lemma_parent_merge(ns0, ns1, p, h, lo, hi, after, j);
}

/// The tree went from `t0` to `t1` keeping the subtree of branch `pid`
/// (holding the same entries, allocating nothing) and everything else.
pub open spec fn kept_by<K: TreeKey, V>(
    t0: BPlusTreeMap<K, V>,
    t1: BPlusTreeMap<K, V>,
    pid: NodeId,
    h: nat,
    lo: Option<int>,
    hi: Option<int>,
    after: NodeId,
) -> bool {
    &&& t1.arenas_ok()
    &&& subtree_kept(t0.views(), t1.views(), branch_ref(pid), h, lo, hi, after, content(t0.views(), branch_ref(pid), h))
    &&& t1.root == t0.root
    &&& t1.capacity == t0.capacity
    &&& t1.height == t0.height
    &&& t1.leaf_arena.slot_count() == t0.leaf_arena.slot_count()
    &&& t1.branch_arena.slot_count() == t0.branch_arena.slot_count()
}

/// What rebalancing child `i` of branch `p` leaves: the nodes, and whether
/// the child is still in place at `i`. A sibling that can donate gives the
/// child an entry or a child (the left one first); else the child merges
/// with a sibling (the left one first), the left sibling absorbing it or it
/// absorbing the right sibling.
pub open spec fn rebalanced<K: TreeKey, V>(t: BPlusTreeMap<K, V>, p: NodeId, i: int) -> (NodeViews<K, V>, bool) {
    let ns = t.views();
    let ch = ns.branches[p].children;
    let leaf = ch[i] is Leaf;
    if i > 0 && can_donate(t, ch[i - 1]) {
        (if leaf {
            leaf_shift_right(ns, p, i - 1, ch[i - 1].spec_id(), ch[i].spec_id())
        } else {
            branch_shift_right(ns, p, i - 1, ch[i - 1].spec_id(), ch[i].spec_id())
        }, true)
    } else if i + 1 < ch.len() && can_donate(t, ch[i + 1]) {
        (if leaf {
            leaf_shift_left(ns, p, i, ch[i].spec_id(), ch[i + 1].spec_id())
        } else {
            branch_shift_left(ns, p, i, ch[i].spec_id(), ch[i + 1].spec_id())
        }, true)
    } else if i > 0 {
        (if leaf {
            leaf_merged(ns, p, i - 1, ch[i - 1].spec_id(), ch[i].spec_id())
        } else {
            branch_merged(ns, p, i - 1, ch[i - 1].spec_id(), ch[i].spec_id())
        }, false)
    } else if i + 1 < ch.len() {
        (if leaf {
            leaf_merged(ns, p, i, ch[i].spec_id(), ch[i + 1].spec_id())
        } else {
            branch_merged(ns, p, i, ch[i].spec_id(), ch[i + 1].spec_id())
        }, true)
    } else {
        (ns, false)
    }
}

/// The root and height left once a branch root with a single child has been
/// replaced by that child, as often as that applies.
pub open spec fn collapsed_root<K, V>(ns: NodeViews<K, V>, n: NodeRef<K, V>, h: nat) -> (NodeRef<K, V>, nat)
    decreases h,
{
    if h > 0 && n is Branch && ns.branches.contains_key(n.spec_id()) && ns.branches[n.spec_id()].children.len() == 1 {
        collapsed_root(ns, ns.branches[n.spec_id()].children[0], (h - 1) as nat)
    } else {
        (n, h)
    }
}

/// The branches that collapsing the root gives up: each branch root with a
/// single child, down to the root that stays.
pub open spec fn collapsed_ids<K, V>(ns: NodeViews<K, V>, n: NodeRef<K, V>, h: nat) -> Set<NodeId>
    decreases h,
{
    if h > 0 && n is Branch && ns.branches.contains_key(n.spec_id()) && ns.branches[n.spec_id()].children.len() == 1 {
        collapsed_ids(ns, ns.branches[n.spec_id()].children[0], (h - 1) as nat).insert(n.spec_id())
    } else {
        Set::empty()
    }
}

/// The child of branch `pid` at `i`, in the tree's views.
pub open spec fn child_at<K: TreeKey, V>(t: BPlusTreeMap<K, V>, pid: NodeId, i: int) -> NodeRef<K, V> {
    t.views().branches[pid].children[i]
}

/// Whether a node would give an entry or child to an underfull sibling:
/// it holds more than half its capacity in keys.
pub open spec fn can_donate<K: TreeKey, V>(t: BPlusTreeMap<K, V>, n: NodeRef<K, V>) -> bool {
    match n {
        NodeRef::Leaf(id, _) => t.leaf_arena@.contains_key(id) && t.leaf_arena@[id].keys@.len()
            > t.leaf_arena@[id].capacity / 2,
        NodeRef::Branch(id, _) => t.branch_arena@.contains_key(id) && t.branch_arena@[id].keys@.len()
            > t.branch_arena@[id].capacity / 2,
    }
}

/// What is known of the sibling of child `i` of branch `pid` at index
/// `s`: the sibling and whether it can donate, if there is one.
pub open spec fn sibling_info<K: TreeKey, V>(t: BPlusTreeMap<K, V>, pid: NodeId, s: int) -> Option<(NodeRef<K, V>, bool)> {
    if 0 <= s < t.views().branches[pid].children.len() {
        Some((child_at(t, pid, s), can_donate(t, child_at(t, pid, s))))
    } else {
        None
    }
}

/// A subtree is kept by doing nothing.
pub proof fn lemma_kept_refl<K: TreeKey, V>(
    ns: NodeViews<K, V>,
    n: NodeRef<K, V>,
    h: nat,
    lo: Option<int>,
    hi: Option<int>,
    after: NodeId,
)
    requires
        wf_node(ns, n, h, lo, hi, after),
    ensures
        subtree_kept(ns, ns, n, h, lo, hi, after, content(ns, n, h)),
{
}

/// A branch whose covering child had the key removed had it removed too.
#[verifier::spinoff_prover]
pub(crate) proof fn lemma_remove_branch_updated<K: TreeKey, V>(
    ns0: NodeViews<K, V>,
    ns1: NodeViews<K, V>,
    n: NodeRef<K, V>,
    h: nat,
    lo: Option<int>,
    hi: Option<int>,
    after: NodeId,
    k: K,
    old: Option<V>,
)
    requires
        wf_node(ns0, n, h, lo, hi, after),
        n is Branch,
        rank_in(k.rank(), lo, hi),
        ({
            let b = ns0.branches[n.spec_id()];
            let i = child_pos(b.keys, k);
            let ch = (h - 1) as nat;
            let c = b.children[i];
            &&& subtree_kept(ns0, ns1, c, ch, child_lo(b.keys, i, lo), child_hi(b.keys, i, hi),
                child_after(ns0, b.children, i, ch, after), remove_entry(content(ns0, c, ch), k))
            &&& old_value_ok(content(ns0, c, ch), k, old)
        }),
    ensures
        subtree_kept(ns0, ns1, n, h, lo, hi, after, remove_entry(content(ns0, n, h), k)),
        old_value_ok(content(ns0, n, h), k, old),
        ns1.branches.contains_key(n.spec_id()),
        ns1.branches[n.spec_id()] == ns0.branches[n.spec_id()],
{
    let id = n.spec_id();
    let b = ns0.branches[id];
    let ch = (h - 1) as nat;
    let cs = b.children;
    let i = child_pos(b.keys, k);
    let c = cs[i];
    lemma_locate(ns0, n, h, lo, hi, after, k);
    lemma_wf_branch_unfold(ns0, n, h, lo, hi, after);
    lemma_parts_around(ns0, n, h, lo, hi, after, k);
    lemma_body_has(ns0, b, ch, lo, hi, after);
    assert forall|x: NodeRef<K, V>| #[trigger] in_tree(ns0, c, ch, x) implies in_tree(ns0, n, h, x) by {
        lemma_child_in_tree(ns0, n, h, i, x);
    }
    assert(!in_tree(ns0, c, ch, n)) by {
        if in_tree(ns0, c, ch, n) {
            assert(in_children(ns0, cs, ch, n));
            assert(!in_tree(ns0, cs[i], ch, n));
        }
    }
    assert forall|x: NodeRef<K, V>| ns0.has(x) && !in_tree(ns0, n, h, x) implies #[trigger] ns0.same_node(ns1, x) by {
        assert(!in_tree(ns0, c, ch, x));
    }
    assert(ns0.has(n));
    assert(ns0.same_node(ns1, n));
    assert(ns1.branches[id] == b);
    assert forall|x: NodeRef<K, V>| in_children(ns0, cs, ch, x) && !in_tree(ns0, c, ch, x) implies #[trigger] ns0.same_node(ns1, x) by {
        assert(ns0.has(x));
    }
    lemma_body_update_child(ns0, ns1, b, ch, lo, hi, after, i);
    assert forall|t: int| 0 <= t < cs.len() implies !#[trigger] in_tree(ns1, cs[t], ch, n) by {
        if in_tree(ns1, cs[t], ch, n) {
            assert(in_children(ns1, cs, ch, n));
            assert(in_children(ns0, cs, ch, n));
            let u = choose|u: int| 0 <= u < cs.len() && #[trigger] in_tree(ns0, cs[u], ch, n);
            assert(!in_tree(ns0, cs[u], ch, n));
        }
    }
    lemma_wf_branch_unfold(ns1, n, h, lo, hi, after);
    let parts0 = children_contents(ns0, cs, ch);
    let ci1 = content(ns1, c, ch);
    lemma_flatten_two(ci1, ci1);
    lemma_flatten_replace(parts0, i, seq![ci1]);
    lemma_remove_entry_middle(parts0.subrange(0, i).flatten(), parts0[i], parts0.subrange(i + 1, parts0.len() as int).flatten(), k);
    crate::body_lemmas::lemma_children_kept(ns0, ns1, b, ch, lo, hi, after, i);
    assert forall|x: NodeRef<K, V>| ns1.has(x) && in_tree(ns0, n, h, x) implies #[trigger] in_tree(ns1, n, h, x) by {
        lemma_in_tree_unfold(ns1, n, h, x);
        lemma_in_tree_unfold(ns0, n, h, x);
    }
    assert forall|x: NodeRef<K, V>| #[trigger] in_tree(ns1, n, h, x) implies in_tree(ns0, n, h, x) by {
        lemma_in_tree_unfold(ns1, n, h, x);
        lemma_in_tree_unfold(ns0, n, h, x);
        if x != n {
            assert(in_children(ns1, cs, ch, x));
            if !in_children(ns0, cs, ch, x) {
                assert(!ns0.has(x));
                assert(ns1.has(x)) by {
                    let t = choose|t: int| 0 <= t < cs.len() && #[trigger] in_tree(ns1, cs[t], ch, x);
                    assert(wf_node(ns1, cs[t], ch, child_lo(b.keys, t, lo), child_hi(b.keys, t, hi), child_after(ns1, cs, t, ch, after)));
                    lemma_wf_basic(ns1, cs[t], ch, child_lo(b.keys, t, lo), child_hi(b.keys, t, hi), child_after(ns1, cs, t, ch, after));
                }
            }
        }
    }
}

/// A root branch with a single child hands the tree over to that child,
/// one level lower, once the root is gone.
pub(crate) proof fn lemma_collapse<K: TreeKey, V>(
    ns: NodeViews<K, V>,
    ns1: NodeViews<K, V>,
    root: NodeRef<K, V>,
    h: nat,
)
    requires
        wf_node(ns, root, h, None, None, NULL_NODE),
        root is Branch,
        ns.branches[root.spec_id()].children.len() == 1,
        ns1 == (NodeViews { leaves: ns.leaves, branches: ns.branches.remove(root.spec_id()) }),
    ensures
        h > 0,
        wf_node(ns1, ns.branches[root.spec_id()].children[0], (h - 1) as nat, None, None, NULL_NODE),
        content(ns1, ns.branches[root.spec_id()].children[0], (h - 1) as nat) == content(ns, root, h),
        forall|x: NodeRef<K, V>| #[trigger] in_tree(ns1, ns.branches[root.spec_id()].children[0], (h - 1) as nat, x)
            == in_tree(ns, ns.branches[root.spec_id()].children[0], (h - 1) as nat, x),
        forall|x: NodeRef<K, V>| x != root && #[trigger] in_tree(ns, root, h, x)
            ==> in_tree(ns, ns.branches[root.spec_id()].children[0], (h - 1) as nat, x),
{
    let b = ns.branches[root.spec_id()];
    let ch = (h - 1) as nat;
    let c = b.children[0];
    lemma_wf_branch_unfold(ns, root, h, None, None, NULL_NODE);
    assert(b.keys.len() == 0);
    assert(child_lo(b.keys, 0, None) == None::<int>);
    assert(child_hi(b.keys, 0, None) == None::<int>);
    assert(child_after(ns, b.children, 0, ch, NULL_NODE) == NULL_NODE);
    assert(wf_node(ns, c, ch, None, None, NULL_NODE));
    lemma_wf_basic(ns, c, ch, None, None, NULL_NODE);
    assert(!in_tree(ns, c, ch, root));
    assert forall|x: NodeRef<K, V>| #[trigger] in_tree(ns, c, ch, x) implies ns.same_node(ns1, x) by {
        assert(ns.has(x));
        if x is Branch {
            assert(x.spec_id() != root.spec_id());
        }
    }
    lemma_frame(ns, ns1, c, ch, None, None, NULL_NODE);
    crate::tree_spec::lemma_children_contents(ns, b.children, ch);
    assert(children_contents(ns, b.children, ch) =~= seq![content(ns, c, ch)]);
    lemma_flatten_two(content(ns, c, ch), content(ns, c, ch));
    assert forall|x: NodeRef<K, V>| x != root && #[trigger] in_tree(ns, root, h, x) implies in_tree(ns, c, ch, x) by {
        lemma_in_tree_unfold(ns, root, h, x);
        let t = choose|t: int| 0 <= t < b.children.len() && #[trigger] in_tree(ns, b.children[t], ch, x);
        assert(t == 0);
    }
}

impl<K: TreeKey, V> BPlusTreeMap<K, V> {
    /// How full the nodes are after the removal below child `i` of branch
    /// `id` (from `t0` to `t1`) and, when `rebalanced_child`, the
    /// rebalancing of that child (from `t1` to `self`).
    proof fn lemma_branch_remove_fill(
        &self,
        t0: BPlusTreeMap<K, V>,
        t1: BPlusTreeMap<K, V>,
        id: NodeId,
        i: int,
        h: nat,
        lo: Option<int>,
        hi: Option<int>,
        after: NodeId,
        cr: RemoveResult<V>,
        rebalanced_child: bool,
    )
        requires
            t0.arenas_ok(),
            t1.arenas_ok(),
            t1.root == t0.root,
            t1.capacity == t0.capacity,
            wf_node(t0.views(), branch_ref(id), h, lo, hi, after),
            wf_node(t1.views(), branch_ref(id), h, lo, hi, after),
            0 <= i < t0.views().branches[id].children.len(),
            t1.views().branches[id] == t0.views().branches[id],
            remove_keeps_fill(t0, t1, t0.views().branches[id].children[i], (h - 1) as nat, cr),
            cr->Updated_1 ==> node_keys_len(t1, t0.views().branches[id].children[i]) < t1.capacity / 2,
            rebalanced_child == (cr->Updated_0 is Some && cr->Updated_1),
            rebalanced_child ==> self.views() == rebalanced(t1, id, i).0,
            !rebalanced_child ==> self.views() == t1.views(),
            self.root == t0.root,
            self.capacity == t0.capacity,
        ensures
            remove_keeps_fill(t0, *self, branch_ref(id), h, RemoveResult::Updated(cr->Updated_0,
                cr->Updated_0 is Some && node_keys_len(*self, branch_ref(id)) < self.capacity / 2)),
    {
        let ns0 = t0.views();
        let ns1 = t1.views();
        let ns2 = self.views();
        let cap = t0.capacity as int;
        let bp = branch_ref::<K, V>(id);
        let b = ns0.branches[id];
        let c = b.children[i];
        let ch = (h - 1) as nat;
        let root = t0.root;
        if t0.half_full() && wf_node(ns0, root, t0.height@, None, None, NULL_NODE) && h <= t0.height@ {
            lemma_half_full_views(t0);
            lemma_wf_branch_unfold(ns0, bp, h, lo, hi, after);
            lemma_wf_branch_unfold(ns1, bp, h, lo, hi, after);
            assert(cap >= crate::types::MIN_CAPACITY);
            assert forall|j: int| 0 <= j < b.children.len() implies #[trigger] b.children[j] != root by {
                assert(wf_node(ns0, b.children[j], ch, child_lo(b.keys, j, lo), child_hi(b.keys, j, hi),
                    child_after(ns0, b.children, j, ch, after)));
                if b.children[j] == root {
                    lemma_height_unique(ns0, root, ch, child_lo(b.keys, j, lo), child_hi(b.keys, j, hi),
                        child_after(ns0, b.children, j, ch, after), t0.height@, None, None, NULL_NODE);
                }
            }
            let clo = child_lo(b.keys, i, lo);
            let chi = child_hi(b.keys, i, hi);
            let caf = child_after(ns0, b.children, i, ch, after);
            assert(wf_node(ns0, c, ch, clo, chi, caf));
            assert(wf_node(ns1, c, ch, child_lo(b.keys, i, lo), child_hi(b.keys, i, hi),
                child_after(ns1, b.children, i, ch, after)));
            crate::tree_spec::lemma_wf_basic(ns0, c, ch, clo, chi, caf);
            // The child held at least half the capacity before.
            assert(keys_len(ns0, c) >= cap / 2) by {
                if c is Leaf {
                    assert(ns0.leaves.contains_key(c.spec_id()));
                } else {
                    assert(ns0.branches.contains_key(c.spec_id()));
                }
            }
            assert(keys_len(ns1, c) + 1 >= keys_len(ns0, c));
            // A child with a key or more is no branch with a single child.
            assert(only_child(ns1, c) == c) by {
                if c is Branch && ns1.branches.contains_key(c.spec_id()) && ns1.branches[c.spec_id()].children.len() == 1 {
                    lemma_wf_branch_unfold(ns1, c, ch, child_lo(b.keys, i, lo), child_hi(b.keys, i, hi),
                        child_after(ns1, b.children, i, ch, after));
                }
            }
            assert(set![root, c, only_child(ns1, c)] =~= set![root, c]);
            if rebalanced_child {
                assert(c is Leaf ==> ns1.leaves.contains_key(c.spec_id()));
                assert(c is Branch ==> ns1.branches.contains_key(c.spec_id()));
                assert(keys_len(ns1, c) < cap / 2);
                assert forall|id2: NodeId| #[trigger] ns1.leaves.contains_key(id2)
                    && !set![root, bp, c].contains(NodeRef::Leaf(id2, PhantomData))
                    implies ns1.leaves[id2].keys.len() >= cap / 2 by {
                    assert(!set![root, c].contains(NodeRef::<K, V>::Leaf(id2, PhantomData)));
                }
                assert forall|id2: NodeId| #[trigger] ns1.branches.contains_key(id2)
                    && !set![root, bp, c].contains(NodeRef::Branch(id2, PhantomData))
                    implies ns1.branches[id2].keys.len() >= cap / 2 by {
                    assert(!set![root, c].contains(NodeRef::<K, V>::Branch(id2, PhantomData)));
                }
                lemma_rebalanced_full(t1, id, i, root, h, lo, hi, after);
                assert(ns2.branches.contains_key(id));
                assert(t1.branch_arena@.contains_key(id));
            } else {
                assert(ns2 == ns1);
                if cr->Updated_0 is Some {
                    assert(keys_len(ns1, c) >= cap / 2);
                } else {
                    assert(keys_len(ns1, c) >= cap / 2);
                }
                assert forall|id2: NodeId| #[trigger] ns2.leaves.contains_key(id2)
                    && !set![root, bp].contains(NodeRef::Leaf(id2, PhantomData))
                    implies ns2.leaves[id2].keys.len() >= cap / 2 by {
                    if NodeRef::<K, V>::Leaf(id2, PhantomData) != c {
                        assert(!set![root, c].contains(NodeRef::<K, V>::Leaf(id2, PhantomData)));
                    }
                }
                assert forall|id2: NodeId| #[trigger] ns2.branches.contains_key(id2)
                    && !set![root, bp].contains(NodeRef::Branch(id2, PhantomData))
                    implies ns2.branches[id2].keys.len() >= cap / 2 by {
                    if NodeRef::<K, V>::Branch(id2, PhantomData) != c {
                        assert(!set![root, c].contains(NodeRef::<K, V>::Branch(id2, PhantomData)));
                    }
                }
                assert(full_enough(ns2, cap, set![root, bp]));
                assert(only_child(ns2, bp) == bp || only_child(ns2, bp) == c);
                assert(full_enough(ns2, cap, set![root, bp, only_child(ns2, bp)]));
                assert(self.branch_arena@.contains_key(id));
            }
        }
    }
}

impl<K: TreeKey, V> BPlusTreeMap<K, V> {
    /// A removal from the root of a half-full tree (from `t0` to `t1`),
    /// followed by the collapse of a root with a single child when an entry
    /// was removed, leaves the tree half full.
    proof fn lemma_remove_collapse_fill(&self, t0: BPlusTreeMap<K, V>, t1: BPlusTreeMap<K, V>, removed: bool)
        requires
            t0.wf(),
            t0.half_full(),
            t1.wf(),
            t1.root == t0.root,
            t1.capacity == t0.capacity,
            t1.height == t0.height,
            removed ==> full_enough(t1.views(), t1.capacity as int, set![t1.root, t1.root, only_child(t1.views(), t1.root)]),
            !removed ==> full_enough(t1.views(), t1.capacity as int, set![t1.root, t1.root]),
            only_child(t1.views(), t1.root) != t1.root ==> keys_len(t1.views(), only_child(t1.views(), t1.root)) + 1
                >= t1.capacity / 2,
            !removed ==> *self == t1,
            removed ==> {
                &&& self.capacity == t1.capacity
                &&& self.root == collapsed_root(t1.views(), t1.root, t1.height@).0
                &&& self.views().leaves == t1.views().leaves
                &&& self.views().branches == t1.views().branches.remove_keys(
                    collapsed_ids(t1.views(), t1.root, t1.height@))
            },
        ensures
            self.half_full(),
    {
        let ns1 = t1.views();
        let ns2 = self.views();
        let cap = t1.capacity as int;
        let root = t1.root;
        lemma_half_full_views(*self);
        assert(cap >= crate::types::MIN_CAPACITY);
        if !removed {
            assert(set![root, root] =~= set![root]);
        } else {
            let oc = only_child(ns1, root);
            if oc == root {
                if root is Branch && ns1.branches.contains_key(root.spec_id()) && ns1.branches[root.spec_id()].children.len() == 1 {
                    lemma_wf_basic(ns1, root, t1.height@, None, None, NULL_NODE);
                    lemma_wf_branch_unfold(ns1, root, t1.height@, None, None, NULL_NODE);
                    let b = ns1.branches[root.spec_id()];
                    assert(!in_tree(ns1, b.children[0], (t1.height@ - 1) as nat, root));
                    assert(in_tree(ns1, b.children[0], (t1.height@ - 1) as nat, b.children[0]));
                }
                assert(set![root, root, oc] =~= set![root]);
                assert(collapsed_root(ns1, root, t1.height@) == (root, t1.height@));
                assert(collapsed_ids(ns1, root, t1.height@) =~= Set::<NodeId>::empty());
                assert(ns2.branches =~= ns1.branches);
            } else {
                lemma_wf_basic(ns1, root, t1.height@, None, None, NULL_NODE);
                lemma_wf_branch_unfold(ns1, root, t1.height@, None, None, NULL_NODE);
                let b = ns1.branches[root.spec_id()];
                let ch = (t1.height@ - 1) as nat;
                assert(wf_node(ns1, oc, ch, child_lo(b.keys, 0, None), child_hi(b.keys, 0, None),
                    child_after(ns1, b.children, 0, ch, NULL_NODE)));
                lemma_wf_basic(ns1, oc, ch, child_lo(b.keys, 0, None), child_hi(b.keys, 0, None),
                    child_after(ns1, b.children, 0, ch, NULL_NODE));
                if oc is Branch {
                    lemma_wf_branch_unfold(ns1, oc, ch, child_lo(b.keys, 0, None), child_hi(b.keys, 0, None),
                        child_after(ns1, b.children, 0, ch, NULL_NODE));
                    assert(ns1.branches[oc.spec_id()].children.len() >= 2);
                }
                assert(collapsed_root(ns1, oc, ch) == (oc, ch));
                assert(collapsed_ids(ns1, oc, ch) =~= Set::<NodeId>::empty());
                assert(collapsed_root(ns1, root, t1.height@) == (oc, ch));
                assert(collapsed_ids(ns1, root, t1.height@) =~= set![root.spec_id()]);
                assert(self.root == oc);
                assert forall|id: NodeId| #[trigger] ns2.leaves.contains_key(id) && !set![self.root].contains(NodeRef::Leaf(id, PhantomData))
                    implies ns2.leaves[id].keys.len() >= cap / 2 by {
                    assert(!set![root, root, oc].contains(NodeRef::<K, V>::Leaf(id, PhantomData)));
                }
                assert forall|id: NodeId| #[trigger] ns2.branches.contains_key(id) && !set![self.root].contains(NodeRef::Branch(id, PhantomData))
                    implies ns2.branches[id].keys.len() >= cap / 2 by {
                    assert(ns1.branches.contains_key(id));
                    assert(id != root.spec_id());
                    assert(!set![root, root, oc].contains(NodeRef::<K, V>::Branch(id, PhantomData)));
                }
            }
        }
    }
}

/// What removing below `n` keeps of how full the nodes are, for a tree
/// whose nodes other than the root were half full and whose root sits at
/// the tree's height, at or above `n`: when nothing was removed, `n` keeps
/// its keys and every node but the root and `n` stays half full; when an
/// entry was removed, `n` lost at most one key, every node but the root,
/// `n` and a single child of `n` stays half full, that child is at most one
/// key short, and `n` is half full unless reported underfull.
pub open spec fn remove_keeps_fill<K: TreeKey, V>(
    t0: BPlusTreeMap<K, V>,
    t1: BPlusTreeMap<K, V>,
    n: NodeRef<K, V>,
    h: nat,
    r: RemoveResult<V>,
) -> bool {
    let cap = t0.capacity as int;
    let ns0 = t0.views();
    let ns1 = t1.views();
    t0.half_full() && wf_node(ns0, t0.root, t0.height@, None, None, NULL_NODE) && h <= t0.height@ ==> {
        &&& r->Updated_0 is None ==> keys_len(ns1, n) == keys_len(ns0, n) && full_enough(ns1, cap, set![t0.root, n])
        &&& r->Updated_0 is Some ==> full_enough(ns1, cap, set![t0.root, n, only_child(ns1, n)])
        &&& keys_len(ns1, n) + 1 >= keys_len(ns0, n)
        &&& only_child(ns1, n) != n ==> keys_len(ns1, only_child(ns1, n)) + 1 >= cap / 2
        &&& (r->Updated_0 is Some && !r->Updated_1) ==> keys_len(ns1, n) >= cap / 2
    }
}

impl<K: TreeKey, V> BPlusTreeMap<K, V> {
    /// Move the last entry of the left leaf to the front of the child leaf;
    /// its key becomes the separator between them.
    fn borrow_from_left_leaf_with_ids(
        &mut self,
        branch_id: NodeId,
        child_index: usize,
        left_id: NodeId,
        child_id: NodeId,
        Ghost(lo): Ghost<Option<int>>,
        Ghost(hi): Ghost<Option<int>>,
        Ghost(after): Ghost<NodeId>,
    ) -> (r: bool)
        requires
            old(self).arenas_ok(),
            wf_node(old(self).views(), branch_ref(branch_id), 1, lo, hi, after),
            0 < child_index < old(self).views().branches[branch_id].children.len(),
            child_at(*old(self), branch_id, child_index - 1) == leaf_ref::<K, V>(left_id),
            child_at(*old(self), branch_id, child_index as int) == leaf_ref::<K, V>(child_id),
            old(self).views().leaves[left_id].keys.len() > old(self).capacity / 2,
            old(self).views().leaves[child_id].keys.len() < old(self).capacity,
        ensures
            kept_by(*old(self), *final(self), branch_id, 1, lo, hi, after),
            r,
            final(self).views() == leaf_shift_right(old(self).views(), branch_id, child_index - 1, left_id, child_id),
    {
        let ghost ns0 = self.views();
        let ghost t0 = *self;
        proof {
            lemma_leaf_children(ns0, branch_ref(branch_id), 1, lo, hi, after);
            assert(ns0.leaves.contains_key(left_id));
            assert(ns0.leaves.contains_key(child_id));
            assert(left_id != child_id);
        }
        let (key, value) = match self.get_leaf_mut(left_id) {
            Some(left_leaf) => match left_leaf.borrow_last() {
                Some(kv) => kv,
                None => {
                    return false;
                },
            },
            None => {
                return false;
            },
        };
        let sep = key;
        match self.get_leaf_mut(child_id) {
            Some(child_leaf) => child_leaf.accept_from_left(key, value),
            None => {
                return false;
            },
        }
        match self.get_branch_mut(branch_id) {
            Some(parent) => parent.keys.set(child_index - 1, sep),
            None => {
                return false;
            },
        }
        proof {
            let ns1 = self.views();
            let lv = ns0.leaves[left_id];
            let cv = ns0.leaves[child_id];
            let b = ns0.branches[branch_id];
            assert(ns1.leaves[left_id] == (LeafView { keys: lv.keys.drop_last(), values: lv.values.drop_last(), next: lv.next }));
            assert(ns1.leaves[child_id] == (LeafView { keys: cv.keys.insert(0, lv.keys.last()), values: cv.values.insert(0, lv.values.last()), next: cv.next }));
            assert(ns1.branches[branch_id].keys =~= b.keys.update(child_index - 1, lv.keys.last()));
            assert(ns1.branches[branch_id] == (BranchView { keys: b.keys.update(child_index - 1, lv.keys.last()), children: b.children }));
            assert forall|x: NodeRef<K, V>| x != branch_ref::<K, V>(branch_id) && x != leaf_ref::<K, V>(left_id) && x != leaf_ref::<K, V>(child_id)
                implies #[trigger] ns0.same_node(ns1, x) by {
                if x is Leaf {
                    assert(x.spec_id() != left_id && x.spec_id() != child_id);
                } else {
                    assert(x.spec_id() != branch_id);
                }
            }
            assert(no_new(ns0, ns1));
            lemma_leaf_borrow_left(ns0, ns1, branch_ref(branch_id), lo, hi, after, child_index - 1);
            let tgt = leaf_shift_right(ns0, branch_id, child_index - 1, left_id, child_id);
            assert forall|x: NodeRef<K, V>| x != branch_ref::<K, V>(branch_id) && x != leaf_ref::<K, V>(left_id) && x != leaf_ref::<K, V>(child_id)
                implies #[trigger] ns0.same_node(tgt, x) by {
                if x is Leaf {
                    assert(x.spec_id() != left_id && x.spec_id() != child_id);
                } else {
                    assert(x.spec_id() != branch_id);
                }
            }
            lemma_views_match(ns0, ns1, tgt, branch_ref(branch_id), leaf_ref(left_id), leaf_ref(child_id));
            assert forall|id: NodeId| #[trigger] self.leaf_arena@.contains_key(id) implies self.leaf_arena@[id].capacity == self.capacity by {
                assert(t0.leaf_arena@.contains_key(id));
            }
            assert forall|id: NodeId| #[trigger] self.branch_arena@.contains_key(id) implies self.branch_arena@[id].capacity == self.capacity by {
                assert(t0.branch_arena@.contains_key(id));
            }
        }
        true
    }

    /// Move the first entry of the right leaf to the end of the child leaf;
    /// the right leaf's new first key becomes the separator between them.
    fn borrow_from_right_leaf_with_ids(
        &mut self,
        branch_id: NodeId,
        child_index: usize,
        child_id: NodeId,
        right_id: NodeId,
        Ghost(lo): Ghost<Option<int>>,
        Ghost(hi): Ghost<Option<int>>,
        Ghost(after): Ghost<NodeId>,
    ) -> (r: bool)
        requires
            old(self).arenas_ok(),
            wf_node(old(self).views(), branch_ref(branch_id), 1, lo, hi, after),
            child_index + 1 < old(self).views().branches[branch_id].children.len(),
            child_at(*old(self), branch_id, child_index as int) == leaf_ref::<K, V>(child_id),
            child_at(*old(self), branch_id, child_index + 1) == leaf_ref::<K, V>(right_id),
            old(self).views().leaves[right_id].keys.len() > old(self).capacity / 2,
            old(self).views().leaves[child_id].keys.len() < old(self).capacity,
        ensures
            kept_by(*old(self), *final(self), branch_id, 1, lo, hi, after),
            r,
            final(self).views() == leaf_shift_left(old(self).views(), branch_id, child_index as int, child_id, right_id),
    {
        let ghost ns0 = self.views();
        let ghost t0 = *self;
        proof {
            lemma_leaf_children(ns0, branch_ref(branch_id), 1, lo, hi, after);
            assert(ns0.leaves.contains_key(right_id));
            assert(ns0.leaves.contains_key(child_id));
            assert(right_id != child_id);
        }
        let (key, value, new_first_opt) = match self.get_leaf_mut(right_id) {
            Some(right_leaf) => match right_leaf.borrow_first() {
                Some((k, v)) => {
                    let first = if right_leaf.keys.len() > 0 {
                        Some(right_leaf.keys[0])
                    } else {
                        None
                    };
                    (k, v, first)
                },
                None => {
                    return false;
                },
            },
            None => {
                return false;
            },
        };
        match self.get_leaf_mut(child_id) {
            Some(child_leaf) => child_leaf.accept_from_right(key, value),
            None => {
                return false;
            },
        }
        match new_first_opt {
            Some(sep) => match self.get_branch_mut(branch_id) {
                Some(parent) => parent.keys.set(child_index, sep),
                None => {
                    return false;
                },
            },
            None => {
                return false;
            },
        }
        proof {
            let ns1 = self.views();
            let rv = ns0.leaves[right_id];
            let cv = ns0.leaves[child_id];
            let b = ns0.branches[branch_id];
            assert(ns1.leaves[child_id] == (LeafView { keys: cv.keys.push(rv.keys[0]), values: cv.values.push(rv.values[0]), next: cv.next }));
            assert(ns1.leaves[right_id] == (LeafView { keys: rv.keys.remove(0), values: rv.values.remove(0), next: rv.next }));
            assert(ns1.branches[branch_id].keys =~= b.keys.update(child_index as int, rv.keys[1]));
            assert(ns1.branches[branch_id] == (BranchView { keys: b.keys.update(child_index as int, rv.keys[1]), children: b.children }));
            assert forall|x: NodeRef<K, V>| x != branch_ref::<K, V>(branch_id) && x != leaf_ref::<K, V>(child_id) && x != leaf_ref::<K, V>(right_id)
                implies #[trigger] ns0.same_node(ns1, x) by {
                if x is Leaf {
                    assert(x.spec_id() != right_id && x.spec_id() != child_id);
                } else {
                    assert(x.spec_id() != branch_id);
                }
            }
            assert(no_new(ns0, ns1));
            lemma_leaf_borrow_right(ns0, ns1, branch_ref(branch_id), lo, hi, after, child_index as int);
            let tgt = leaf_shift_left(ns0, branch_id, child_index as int, child_id, right_id);
            assert forall|x: NodeRef<K, V>| x != branch_ref::<K, V>(branch_id) && x != leaf_ref::<K, V>(child_id) && x != leaf_ref::<K, V>(right_id)
                implies #[trigger] ns0.same_node(tgt, x) by {
                if x is Leaf {
                    assert(x.spec_id() != right_id && x.spec_id() != child_id);
                } else {
                    assert(x.spec_id() != branch_id);
                }
            }
            lemma_views_match(ns0, ns1, tgt, branch_ref(branch_id), leaf_ref(child_id), leaf_ref(right_id));
            assert forall|id: NodeId| #[trigger] self.leaf_arena@.contains_key(id) implies self.leaf_arena@[id].capacity == self.capacity by {
                assert(t0.leaf_arena@.contains_key(id));
            }
            assert forall|id: NodeId| #[trigger] self.branch_arena@.contains_key(id) implies self.branch_arena@[id].capacity == self.capacity by {
                assert(t0.branch_arena@.contains_key(id));
            }
        }
        true
    }

    /// Merge the child leaf into its left sibling and drop it.
    fn merge_with_left_leaf_with_ids(
        &mut self,
        branch_id: NodeId,
        child_index: usize,
        left_id: NodeId,
        child_id: NodeId,
        Ghost(lo): Ghost<Option<int>>,
        Ghost(hi): Ghost<Option<int>>,
        Ghost(after): Ghost<NodeId>,
    ) -> (r: bool)
        requires
            old(self).arenas_ok(),
            wf_node(old(self).views(), branch_ref(branch_id), 1, lo, hi, after),
            0 < child_index < old(self).views().branches[branch_id].children.len(),
            child_at(*old(self), branch_id, child_index - 1) == leaf_ref::<K, V>(left_id),
            child_at(*old(self), branch_id, child_index as int) == leaf_ref::<K, V>(child_id),
            old(self).views().leaves[left_id].keys.len() + old(self).views().leaves[child_id].keys.len()
                <= old(self).capacity,
        ensures
            kept_by(*old(self), *final(self), branch_id, 1, lo, hi, after),
            !r,
            final(self).views() == leaf_merged(old(self).views(), branch_id, child_index - 1, left_id, child_id),
    {
        let ghost ns0 = self.views();
        let ghost t0 = *self;
        proof {
            lemma_leaf_children(ns0, branch_ref(branch_id), 1, lo, hi, after);
            assert(ns0.leaves.contains_key(left_id));
            assert(ns0.leaves.contains_key(child_id));
            assert(left_id != child_id);
        }
        let (mut child_keys, mut child_values, child_next) = match self.get_leaf_mut(child_id) {
            Some(child_leaf) => child_leaf.extract_all(),
            None => {
                return false;
            },
        };
        match self.get_leaf_mut(left_id) {
            Some(left_leaf) => {
                left_leaf.keys.append(&mut child_keys);
                left_leaf.values.append(&mut child_values);
                left_leaf.next = child_next;
            },
            None => {
                return false;
            },
        }
        match self.get_branch_mut(branch_id) {
            Some(branch) => {
                branch.children.remove(child_index);
                branch.keys.remove(child_index - 1);
            },
            None => {
                return false;
            },
        }
        self.deallocate_leaf(child_id);
        proof {
            let ns1 = self.views();
            let lv = ns0.leaves[left_id];
            let cv = ns0.leaves[child_id];
            let b = ns0.branches[branch_id];
            let j = child_index - 1;
            assert(ns1.leaves[left_id] == (LeafView { keys: lv.keys + cv.keys, values: lv.values + cv.values, next: cv.next }));
            assert(b.children.remove(j + 1) =~= ns1.branches[branch_id].children);
            assert(ns1.branches[branch_id] == (BranchView { keys: b.keys.remove(j), children: b.children.remove(j + 1) }));
            assert forall|x: NodeRef<K, V>| x != branch_ref::<K, V>(branch_id) && x != leaf_ref::<K, V>(left_id) && x != leaf_ref::<K, V>(child_id)
                implies #[trigger] ns0.same_node(ns1, x) by {
                if x is Leaf {
                    assert(x.spec_id() != left_id && x.spec_id() != child_id);
                } else {
                    assert(x.spec_id() != branch_id);
                }
            }
            assert(no_new(ns0, ns1));
            lemma_leaf_merge(ns0, ns1, branch_ref(branch_id), lo, hi, after, j);
            assert forall|id: NodeId| #[trigger] self.leaf_arena@.contains_key(id) implies self.leaf_arena@[id].capacity == self.capacity by {
                assert(t0.leaf_arena@.contains_key(id));
            }
            assert forall|id: NodeId| #[trigger] self.branch_arena@.contains_key(id) implies self.branch_arena@[id].capacity == self.capacity by {
                assert(t0.branch_arena@.contains_key(id));
            }
            let tgt = leaf_merged(ns0, branch_id, j, left_id, child_id);
            assert forall|x: NodeRef<K, V>| x != branch_ref::<K, V>(branch_id) && x != leaf_ref::<K, V>(left_id) && x != leaf_ref::<K, V>(child_id)
                implies #[trigger] ns0.same_node(tgt, x) by {
                if x is Leaf {
                    assert(x.spec_id() != left_id && x.spec_id() != child_id);
                } else {
                    assert(x.spec_id() != branch_id);
                }
            }
            assert(!ns1.leaves.contains_key(child_id));
            lemma_views_match(ns0, ns1, tgt, branch_ref(branch_id), leaf_ref(left_id), leaf_ref(child_id));
        }
        false
    }

    /// Merge the right sibling leaf into the child leaf and drop it.
    fn merge_with_right_leaf_with_ids(
        &mut self,
        branch_id: NodeId,
        child_index: usize,
        child_id: NodeId,
        right_id: NodeId,
        Ghost(lo): Ghost<Option<int>>,
        Ghost(hi): Ghost<Option<int>>,
        Ghost(after): Ghost<NodeId>,
    ) -> (r: bool)
        requires
            old(self).arenas_ok(),
            wf_node(old(self).views(), branch_ref(branch_id), 1, lo, hi, after),
            child_index + 1 < old(self).views().branches[branch_id].children.len(),
            child_at(*old(self), branch_id, child_index as int) == leaf_ref::<K, V>(child_id),
            child_at(*old(self), branch_id, child_index + 1) == leaf_ref::<K, V>(right_id),
            old(self).views().leaves[child_id].keys.len() + old(self).views().leaves[right_id].keys.len()
                <= old(self).capacity,
        ensures
            kept_by(*old(self), *final(self), branch_id, 1, lo, hi, after),
            r,
            final(self).views() == leaf_merged(old(self).views(), branch_id, child_index as int, child_id, right_id),
    {
        let ghost ns0 = self.views();
        let ghost t0 = *self;
        proof {
            lemma_leaf_children(ns0, branch_ref(branch_id), 1, lo, hi, after);
            assert(ns0.leaves.contains_key(right_id));
            assert(ns0.leaves.contains_key(child_id));
            assert(right_id != child_id);
            assert(ns0.branches[branch_id].children.len() == self.branch_arena@[branch_id].children.len());
        }
        let (mut right_keys, mut right_values, right_next) = match self.get_leaf_mut(right_id) {
            Some(right_leaf) => right_leaf.extract_all(),
            None => {
                return false;
            },
        };
        match self.get_leaf_mut(child_id) {
            Some(child_leaf) => {
                child_leaf.keys.append(&mut right_keys);
                child_leaf.values.append(&mut right_values);
                child_leaf.next = right_next;
            },
            None => {
                return false;
            },
        }
        match self.get_branch_mut(branch_id) {
            Some(branch) => {
                branch.children.remove(child_index + 1);
                branch.keys.remove(child_index);
            },
            None => {
                return false;
            },
        }
        self.deallocate_leaf(right_id);
        proof {
            let ns1 = self.views();
            let cv = ns0.leaves[child_id];
            let rv = ns0.leaves[right_id];
            let b = ns0.branches[branch_id];
            let j = child_index as int;
            assert(ns1.leaves[child_id] == (LeafView { keys: cv.keys + rv.keys, values: cv.values + rv.values, next: rv.next }));
            assert(b.children.remove(j + 1) =~= ns1.branches[branch_id].children);
            assert(ns1.branches[branch_id] == (BranchView { keys: b.keys.remove(j), children: b.children.remove(j + 1) }));
            assert forall|x: NodeRef<K, V>| x != branch_ref::<K, V>(branch_id) && x != leaf_ref::<K, V>(child_id) && x != leaf_ref::<K, V>(right_id)
                implies #[trigger] ns0.same_node(ns1, x) by {
                if x is Leaf {
                    assert(x.spec_id() != right_id && x.spec_id() != child_id);
                } else {
                    assert(x.spec_id() != branch_id);
                }
            }
            assert(no_new(ns0, ns1));
            lemma_leaf_merge(ns0, ns1, branch_ref(branch_id), lo, hi, after, j);
            assert forall|id: NodeId| #[trigger] self.leaf_arena@.contains_key(id) implies self.leaf_arena@[id].capacity == self.capacity by {
                assert(t0.leaf_arena@.contains_key(id));
            }
            assert forall|id: NodeId| #[trigger] self.branch_arena@.contains_key(id) implies self.branch_arena@[id].capacity == self.capacity by {
                assert(t0.branch_arena@.contains_key(id));
            }
            let tgt = leaf_merged(ns0, branch_id, j, child_id, right_id);
            assert forall|x: NodeRef<K, V>| x != branch_ref::<K, V>(branch_id) && x != leaf_ref::<K, V>(child_id) && x != leaf_ref::<K, V>(right_id)
                implies #[trigger] ns0.same_node(tgt, x) by {
                if x is Leaf {
                    assert(x.spec_id() != right_id && x.spec_id() != child_id);
                } else {
                    assert(x.spec_id() != branch_id);
                }
            }
            assert(!ns1.leaves.contains_key(right_id));
            lemma_views_match(ns0, ns1, tgt, branch_ref(branch_id), leaf_ref(child_id), leaf_ref(right_id));
        }
        true
    }

    /// Rotate the last child of the left branch into the child branch: the
    /// separator moves down as the child's first key and the left's last
    /// key moves up in its place.
    fn borrow_from_left_branch_with(
        &mut self,
        parent_id: NodeId,
        child_index: usize,
        left_id: NodeId,
        child_id: NodeId,
        separator_key: K,
        Ghost(h): Ghost<nat>,
        Ghost(lo): Ghost<Option<int>>,
        Ghost(hi): Ghost<Option<int>>,
        Ghost(after): Ghost<NodeId>,
    ) -> (r: bool)
        requires
            old(self).arenas_ok(),
            wf_node(old(self).views(), branch_ref(parent_id), h, lo, hi, after),
            h >= 2,
            0 < child_index < old(self).views().branches[parent_id].children.len(),
            child_at(*old(self), parent_id, child_index - 1) == branch_ref::<K, V>(left_id),
            child_at(*old(self), parent_id, child_index as int) == branch_ref::<K, V>(child_id),
            separator_key == old(self).views().branches[parent_id].keys[child_index - 1],
            old(self).views().branches[left_id].keys.len() > old(self).capacity / 2,
            old(self).views().branches[child_id].keys.len() < old(self).capacity,
        ensures
            kept_by(*old(self), *final(self), parent_id, h, lo, hi, after),
            r,
            final(self).views() == branch_shift_right(old(self).views(), parent_id, child_index - 1, left_id, child_id),
    {
        let ghost ns0 = self.views();
        let ghost t0 = *self;
        proof {
            lemma_branch_children(ns0, branch_ref(parent_id), h, lo, hi, after);
            lemma_branch_pair_facts(ns0, branch_ref(parent_id), h, lo, hi, after, child_index - 1);
            assert(ns0.branches.contains_key(left_id));
            assert(ns0.branches.contains_key(child_id));
        }
        let (moved_key, moved_child) = match self.get_branch_mut(left_id) {
            Some(left_branch) => match left_branch.borrow_last() {
                Some(result) => result,
                None => {
                    return false;
                },
            },
            None => {
                return false;
            },
        };
        let new_separator = match self.get_branch_mut(child_id) {
            Some(child_branch) => child_branch.accept_from_left(separator_key, moved_key, moved_child),
            None => {
                return false;
            },
        };
        match self.get_branch_mut(parent_id) {
            Some(parent) => parent.keys.set(child_index - 1, new_separator),
            None => {
                return false;
            },
        }
        proof {
            let ns1 = self.views();
            let bl = ns0.branches[left_id];
            let bc = ns0.branches[child_id];
            let b = ns0.branches[parent_id];
            assert(ns1.branches[left_id] == body_drop_last(bl));
            assert(ns1.branches[child_id] == body_push_front(bc, b.keys[child_index - 1], bl.children.last()));
            assert(ns1.branches[parent_id].keys =~= b.keys.update(child_index - 1, bl.keys.last()));
            assert(ns1.branches[parent_id] == (BranchView { keys: b.keys.update(child_index - 1, bl.keys.last()), children: b.children }));
            assert forall|x: NodeRef<K, V>| x != branch_ref::<K, V>(parent_id) && x != branch_ref::<K, V>(left_id) && x != branch_ref::<K, V>(child_id)
                implies #[trigger] ns0.same_node(ns1, x) by {
                if x is Branch {
                    assert(x.spec_id() != left_id && x.spec_id() != child_id && x.spec_id() != parent_id);
                }
            }
            assert(no_new(ns0, ns1));
            lemma_branch_borrow_left(ns0, ns1, branch_ref(parent_id), h, lo, hi, after, child_index - 1);
            let tgt = branch_shift_right(ns0, parent_id, child_index - 1, left_id, child_id);
            assert forall|x: NodeRef<K, V>| x != branch_ref::<K, V>(parent_id) && x != branch_ref::<K, V>(left_id) && x != branch_ref::<K, V>(child_id)
                implies #[trigger] ns0.same_node(tgt, x) by {
                if x is Branch {
                    assert(x.spec_id() != parent_id && x.spec_id() != left_id && x.spec_id() != child_id);
                }
            }
            lemma_views_match(ns0, ns1, tgt, branch_ref(parent_id), branch_ref(left_id), branch_ref(child_id));
            assert forall|id: NodeId| #[trigger] self.leaf_arena@.contains_key(id) implies self.leaf_arena@[id].capacity == self.capacity by {
                assert(t0.leaf_arena@.contains_key(id));
            }
            assert forall|id: NodeId| #[trigger] self.branch_arena@.contains_key(id) implies self.branch_arena@[id].capacity == self.capacity by {
                assert(t0.branch_arena@.contains_key(id));
            }
        }
        true
    }

    /// Rotate the first child of the right branch into the child branch:
    /// the separator moves down as the child's last key and the right's
    /// first key moves up in its place.
    fn borrow_from_right_branch_with(
        &mut self,
        parent_id: NodeId,
        child_index: usize,
        child_id: NodeId,
        right_id: NodeId,
        separator_key: K,
        Ghost(h): Ghost<nat>,
        Ghost(lo): Ghost<Option<int>>,
        Ghost(hi): Ghost<Option<int>>,
        Ghost(after): Ghost<NodeId>,
    ) -> (r: bool)
        requires
            old(self).arenas_ok(),
            wf_node(old(self).views(), branch_ref(parent_id), h, lo, hi, after),
            h >= 2,
            child_index + 1 < old(self).views().branches[parent_id].children.len(),
            child_at(*old(self), parent_id, child_index as int) == branch_ref::<K, V>(child_id),
            child_at(*old(self), parent_id, child_index + 1) == branch_ref::<K, V>(right_id),
            separator_key == old(self).views().branches[parent_id].keys[child_index as int],
            old(self).views().branches[right_id].keys.len() > old(self).capacity / 2,
            old(self).views().branches[child_id].keys.len() < old(self).capacity,
        ensures
            kept_by(*old(self), *final(self), parent_id, h, lo, hi, after),
            r,
            final(self).views() == branch_shift_left(old(self).views(), parent_id, child_index as int, child_id, right_id),
    {
        let ghost ns0 = self.views();
        let ghost t0 = *self;
        proof {
            lemma_branch_children(ns0, branch_ref(parent_id), h, lo, hi, after);
            lemma_branch_pair_facts(ns0, branch_ref(parent_id), h, lo, hi, after, child_index as int);
            assert(ns0.branches.contains_key(right_id));
            assert(ns0.branches.contains_key(child_id));
        }
        let (moved_key, moved_child) = match self.get_branch_mut(right_id) {
            Some(right_branch) => match right_branch.borrow_first() {
                Some(result) => result,
                None => {
                    return false;
                },
            },
            None => {
                return false;
            },
        };
        let new_separator = match self.get_branch_mut(child_id) {
            Some(child_branch) => child_branch.accept_from_right(separator_key, moved_key, moved_child),
            None => {
                return false;
            },
        };
        match self.get_branch_mut(parent_id) {
            Some(parent) => parent.keys.set(child_index, new_separator),
            None => {
                return false;
            },
        }
        proof {
            let ns1 = self.views();
            let bc = ns0.branches[child_id];
            let br = ns0.branches[right_id];
            let b = ns0.branches[parent_id];
            assert(ns1.branches[child_id] == body_push_back(bc, b.keys[child_index as int], br.children[0]));
            assert(ns1.branches[right_id] == body_drop_first(br));
            assert(ns1.branches[parent_id].keys =~= b.keys.update(child_index as int, br.keys[0]));
            assert(ns1.branches[parent_id] == (BranchView { keys: b.keys.update(child_index as int, br.keys[0]), children: b.children }));
            assert forall|x: NodeRef<K, V>| x != branch_ref::<K, V>(parent_id) && x != branch_ref::<K, V>(child_id) && x != branch_ref::<K, V>(right_id)
                implies #[trigger] ns0.same_node(ns1, x) by {
                if x is Branch {
                    assert(x.spec_id() != child_id && x.spec_id() != right_id && x.spec_id() != parent_id);
                }
            }
            assert(no_new(ns0, ns1));
            lemma_branch_borrow_right(ns0, ns1, branch_ref(parent_id), h, lo, hi, after, child_index as int);
            let tgt = branch_shift_left(ns0, parent_id, child_index as int, child_id, right_id);
            assert forall|x: NodeRef<K, V>| x != branch_ref::<K, V>(parent_id) && x != branch_ref::<K, V>(child_id) && x != branch_ref::<K, V>(right_id)
                implies #[trigger] ns0.same_node(tgt, x) by {
                if x is Branch {
                    assert(x.spec_id() != parent_id && x.spec_id() != child_id && x.spec_id() != right_id);
                }
            }
            lemma_views_match(ns0, ns1, tgt, branch_ref(parent_id), branch_ref(child_id), branch_ref(right_id));
            assert forall|id: NodeId| #[trigger] self.leaf_arena@.contains_key(id) implies self.leaf_arena@[id].capacity == self.capacity by {
                assert(t0.leaf_arena@.contains_key(id));
            }
            assert forall|id: NodeId| #[trigger] self.branch_arena@.contains_key(id) implies self.branch_arena@[id].capacity == self.capacity by {
                assert(t0.branch_arena@.contains_key(id));
            }
        }
        true
    }

    /// Merge the child branch into its left sibling, the separator moving
    /// down between them, and drop the child.
    fn merge_with_left_branch(
        &mut self,
        parent_id: NodeId,
        child_index: usize,
        Ghost(h): Ghost<nat>,
        Ghost(lo): Ghost<Option<int>>,
        Ghost(hi): Ghost<Option<int>>,
        Ghost(after): Ghost<NodeId>,
    ) -> (r: bool)
        requires
            old(self).arenas_ok(),
            wf_node(old(self).views(), branch_ref(parent_id), h, lo, hi, after),
            h >= 2,
            0 < child_index < old(self).views().branches[parent_id].children.len(),
            node_keys_len(*old(self), child_at(*old(self), parent_id, child_index - 1))
                + node_keys_len(*old(self), child_at(*old(self), parent_id, child_index as int)) + 1 <= old(self).capacity,
        ensures
            kept_by(*old(self), *final(self), parent_id, h, lo, hi, after),
            !r,
            final(self).views() == branch_merged(old(self).views(), parent_id, child_index - 1,
                child_at(*old(self), parent_id, child_index - 1).spec_id(),
                child_at(*old(self), parent_id, child_index as int).spec_id()),
    {
        let ghost ns0 = self.views();
        let ghost t0 = *self;
        proof {
            lemma_branch_children(ns0, branch_ref(parent_id), h, lo, hi, after);
            lemma_branch_pair_facts(ns0, branch_ref(parent_id), h, lo, hi, after, child_index - 1);
        }
        let (left_id, child_id, separator_key) = match self.get_branch(parent_id) {
            Some(parent) => match (parent.children[child_index - 1], parent.children[child_index]) {
                (NodeRef::Branch(left, _), NodeRef::Branch(child, _)) => (left, child, parent.keys[child_index - 1]),
                _ => {
                    return false;
                },
            },
            None => {
                return false;
            },
        };
        let (mut child_keys, mut child_children) = match self.get_branch_mut(child_id) {
            Some(child_branch) => {
                let mut keys = Vec::new();
                std::mem::swap(&mut keys, &mut child_branch.keys);
                let mut children = Vec::new();
                std::mem::swap(&mut children, &mut child_branch.children);
                (keys, children)
            },
            None => {
                return false;
            },
        };
        match self.get_branch_mut(left_id) {
            Some(left_branch) => {
                left_branch.keys.push(separator_key);
                left_branch.keys.append(&mut child_keys);
                left_branch.children.append(&mut child_children);
            },
            None => {
                return false;
            },
        }
        match self.get_branch_mut(parent_id) {
            Some(parent) => {
                parent.children.remove(child_index);
                parent.keys.remove(child_index - 1);
            },
            None => {
                return false;
            },
        }
        self.deallocate_branch(child_id);
        proof {
            let ns1 = self.views();
            let bl = ns0.branches[left_id];
            let bc = ns0.branches[child_id];
            let b = ns0.branches[parent_id];
            let j = child_index - 1;
            assert(ns1.branches[left_id].keys =~= body_join(bl, b.keys[j], bc).keys);
            assert(ns1.branches[left_id] == body_join(bl, b.keys[j], bc));
            assert(b.children.remove(j + 1) =~= ns1.branches[parent_id].children);
            assert(ns1.branches[parent_id] == (BranchView { keys: b.keys.remove(j), children: b.children.remove(j + 1) }));
            assert forall|x: NodeRef<K, V>| x != branch_ref::<K, V>(parent_id) && x != branch_ref::<K, V>(left_id) && x != branch_ref::<K, V>(child_id)
                implies #[trigger] ns0.same_node(ns1, x) by {
                if x is Branch {
                    assert(x.spec_id() != left_id && x.spec_id() != child_id && x.spec_id() != parent_id);
                }
            }
            assert(no_new(ns0, ns1));
            lemma_branch_merge(ns0, ns1, branch_ref(parent_id), h, lo, hi, after, j);
            assert forall|id: NodeId| #[trigger] self.leaf_arena@.contains_key(id) implies self.leaf_arena@[id].capacity == self.capacity by {
                assert(t0.leaf_arena@.contains_key(id));
            }
            assert forall|id: NodeId| #[trigger] self.branch_arena@.contains_key(id) implies self.branch_arena@[id].capacity == self.capacity by {
                assert(t0.branch_arena@.contains_key(id));
            }
            let tgt = branch_merged(ns0, parent_id, j, left_id, child_id);
            assert forall|x: NodeRef<K, V>| x != branch_ref::<K, V>(parent_id) && x != branch_ref::<K, V>(left_id) && x != branch_ref::<K, V>(child_id)
                implies #[trigger] ns0.same_node(tgt, x) by {
                if x is Branch {
                    assert(x.spec_id() != parent_id && x.spec_id() != left_id && x.spec_id() != child_id);
                }
            }
            assert(!ns1.branches.contains_key(child_id));
            lemma_views_match(ns0, ns1, tgt, branch_ref(parent_id), branch_ref(left_id), branch_ref(child_id));
        }
        false
    }

    /// Merge the right sibling branch into the child branch, the separator
    /// moving down between them, and drop the sibling.
    fn merge_with_right_branch(
        &mut self,
        parent_id: NodeId,
        child_index: usize,
        Ghost(h): Ghost<nat>,
        Ghost(lo): Ghost<Option<int>>,
        Ghost(hi): Ghost<Option<int>>,
        Ghost(after): Ghost<NodeId>,
    ) -> (r: bool)
        requires
            old(self).arenas_ok(),
            wf_node(old(self).views(), branch_ref(parent_id), h, lo, hi, after),
            h >= 2,
            child_index + 1 < old(self).views().branches[parent_id].children.len(),
            node_keys_len(*old(self), child_at(*old(self), parent_id, child_index as int))
                + node_keys_len(*old(self), child_at(*old(self), parent_id, child_index + 1)) + 1 <= old(self).capacity,
        ensures
            kept_by(*old(self), *final(self), parent_id, h, lo, hi, after),
            r,
            final(self).views() == branch_merged(old(self).views(), parent_id, child_index as int,
                child_at(*old(self), parent_id, child_index as int).spec_id(),
                child_at(*old(self), parent_id, child_index + 1).spec_id()),
    {
        let ghost ns0 = self.views();
        let ghost t0 = *self;
        proof {
            lemma_branch_children(ns0, branch_ref(parent_id), h, lo, hi, after);
            lemma_branch_pair_facts(ns0, branch_ref(parent_id), h, lo, hi, after, child_index as int);
            assert(ns0.branches[parent_id].children.len() == self.branch_arena@[parent_id].children.len());
        }
        let (child_id, right_id, separator_key) = match self.get_branch(parent_id) {
            Some(parent) => match (parent.children[child_index], parent.children[child_index + 1]) {
                (NodeRef::Branch(child, _), NodeRef::Branch(right, _)) => (child, right, parent.keys[child_index]),
                _ => {
                    return false;
                },
            },
            None => {
                return false;
            },
        };
        let (mut right_keys, mut right_children) = match self.get_branch_mut(right_id) {
            Some(right_branch) => {
                let mut keys = Vec::new();
                std::mem::swap(&mut keys, &mut right_branch.keys);
                let mut children = Vec::new();
                std::mem::swap(&mut children, &mut right_branch.children);
                (keys, children)
            },
            None => {
                return false;
            },
        };
        match self.get_branch_mut(child_id) {
            Some(child_branch) => {
                child_branch.keys.push(separator_key);
                child_branch.keys.append(&mut right_keys);
                child_branch.children.append(&mut right_children);
            },
            None => {
                return false;
            },
        }
        match self.get_branch_mut(parent_id) {
            Some(parent) => {
                parent.children.remove(child_index + 1);
                parent.keys.remove(child_index);
            },
            None => {
                return false;
            },
        }
        self.deallocate_branch(right_id);
        proof {
            let ns1 = self.views();
            let bc = ns0.branches[child_id];
            let br = ns0.branches[right_id];
            let b = ns0.branches[parent_id];
            let j = child_index as int;
            assert(ns1.branches[child_id].keys =~= body_join(bc, b.keys[j], br).keys);
            assert(ns1.branches[child_id] == body_join(bc, b.keys[j], br));
            assert(b.children.remove(j + 1) =~= ns1.branches[parent_id].children);
            assert(ns1.branches[parent_id] == (BranchView { keys: b.keys.remove(j), children: b.children.remove(j + 1) }));
            assert forall|x: NodeRef<K, V>| x != branch_ref::<K, V>(parent_id) && x != branch_ref::<K, V>(child_id) && x != branch_ref::<K, V>(right_id)
                implies #[trigger] ns0.same_node(ns1, x) by {
                if x is Branch {
                    assert(x.spec_id() != child_id && x.spec_id() != right_id && x.spec_id() != parent_id);
                }
            }
            assert(no_new(ns0, ns1));
            lemma_branch_merge(ns0, ns1, branch_ref(parent_id), h, lo, hi, after, j);
            assert forall|id: NodeId| #[trigger] self.leaf_arena@.contains_key(id) implies self.leaf_arena@[id].capacity == self.capacity by {
                assert(t0.leaf_arena@.contains_key(id));
            }
            assert forall|id: NodeId| #[trigger] self.branch_arena@.contains_key(id) implies self.branch_arena@[id].capacity == self.capacity by {
                assert(t0.branch_arena@.contains_key(id));
            }
            let tgt = branch_merged(ns0, parent_id, j, child_id, right_id);
            assert forall|x: NodeRef<K, V>| x != branch_ref::<K, V>(parent_id) && x != branch_ref::<K, V>(child_id) && x != branch_ref::<K, V>(right_id)
                implies #[trigger] ns0.same_node(tgt, x) by {
                if x is Branch {
                    assert(x.spec_id() != parent_id && x.spec_id() != child_id && x.spec_id() != right_id);
                }
            }
            assert(!ns1.branches.contains_key(right_id));
            lemma_views_match(ns0, ns1, tgt, branch_ref(parent_id), branch_ref(child_id), branch_ref(right_id));
        }
        true
    }

    /// Rebalance an underfull leaf child using the siblings' information:
    /// borrow from a sibling that can donate (left first), else merge with
    /// a sibling (left first).
    fn rebalance_leaf(
        &mut self,
        parent_id: NodeId,
        child_index: usize,
        left_sibling_info: Option<(NodeRef<K, V>, bool)>,
        right_sibling_info: Option<(NodeRef<K, V>, bool)>,
        Ghost(lo): Ghost<Option<int>>,
        Ghost(hi): Ghost<Option<int>>,
        Ghost(after): Ghost<NodeId>,
    ) -> (r: bool)
        requires
            old(self).arenas_ok(),
            wf_node(old(self).views(), branch_ref(parent_id), 1, lo, hi, after),
            child_index < old(self).views().branches[parent_id].children.len(),
            left_sibling_info == sibling_info(*old(self), parent_id, child_index - 1),
            right_sibling_info == sibling_info(*old(self), parent_id, child_index + 1),
            node_keys_len(*old(self), child_at(*old(self), parent_id, child_index as int)) < old(self).capacity / 2,
        ensures
            kept_by(*old(self), *final(self), parent_id, 1, lo, hi, after),
            final(self).views() == rebalanced(*old(self), parent_id, child_index as int).0,
            r == rebalanced(*old(self), parent_id, child_index as int).1,
    {
        let ghost ns0 = self.views();
        proof {
            lemma_leaf_children(ns0, branch_ref(parent_id), 1, lo, hi, after);
            lemma_kept_refl(ns0, branch_ref(parent_id), 1, lo, hi, after);
            assert(ns0.branches[parent_id].children.len() == self.branch_arena@[parent_id].children.len());
        }
        let (left_id_opt, right_id_opt) = match self.get_branch(parent_id) {
            Some(parent) => {
                let left_id_opt = if child_index > 0 {
                    match parent.children[child_index - 1] {
                        NodeRef::Leaf(id, _) => Some(id),
                        _ => None,
                    }
                } else {
                    None
                };
                let right_id_opt = if child_index + 1 < parent.children.len() {
                    match parent.children[child_index + 1] {
                        NodeRef::Leaf(id, _) => Some(id),
                        _ => None,
                    }
                } else {
                    None
                };
                (left_id_opt, right_id_opt)
            },
            None => {
                return false;
            },
        };
        let child_id = match self.get_branch(parent_id) {
            Some(parent) => match parent.children[child_index] {
                NodeRef::Leaf(id, _) => id,
                _ => {
                    return false;
                },
            },
            None => {
                return false;
            },
        };
        if let Some((_left_ref, can_donate)) = left_sibling_info {
            if can_donate {
                if let Some(left_id) = left_id_opt {
                    return self.borrow_from_left_leaf_with_ids(parent_id, child_index, left_id, child_id,
                        Ghost(lo), Ghost(hi), Ghost(after));
                }
            }
        }
        if let Some((_right_ref, can_donate)) = right_sibling_info {
            if can_donate {
                if let Some(right_id) = right_id_opt {
                    return self.borrow_from_right_leaf_with_ids(parent_id, child_index, child_id, right_id,
                        Ghost(lo), Ghost(hi), Ghost(after));
                }
            }
        }
        if let Some(left_id) = left_id_opt {
            self.merge_with_left_leaf_with_ids(parent_id, child_index, left_id, child_id, Ghost(lo), Ghost(hi),
                Ghost(after))
        } else if let Some(right_id) = right_id_opt {
            self.merge_with_right_leaf_with_ids(parent_id, child_index, child_id, right_id, Ghost(lo), Ghost(hi),
                Ghost(after))
        } else {
            false
        }
    }

    /// Rebalance an underfull branch child using the siblings' information:
    /// borrow from a sibling that can donate (left first), else merge with
    /// a sibling (left first).
    fn rebalance_branch(
        &mut self,
        parent_id: NodeId,
        child_index: usize,
        left_sibling_info: Option<(NodeRef<K, V>, bool)>,
        right_sibling_info: Option<(NodeRef<K, V>, bool)>,
        Ghost(h): Ghost<nat>,
        Ghost(lo): Ghost<Option<int>>,
        Ghost(hi): Ghost<Option<int>>,
        Ghost(after): Ghost<NodeId>,
    ) -> (r: bool)
        requires
            old(self).arenas_ok(),
            wf_node(old(self).views(), branch_ref(parent_id), h, lo, hi, after),
            h >= 2,
            child_index < old(self).views().branches[parent_id].children.len(),
            left_sibling_info == sibling_info(*old(self), parent_id, child_index - 1),
            right_sibling_info == sibling_info(*old(self), parent_id, child_index + 1),
            node_keys_len(*old(self), child_at(*old(self), parent_id, child_index as int)) < old(self).capacity / 2,
        ensures
            kept_by(*old(self), *final(self), parent_id, h, lo, hi, after),
            final(self).views() == rebalanced(*old(self), parent_id, child_index as int).0,
            r == rebalanced(*old(self), parent_id, child_index as int).1,
    {
        let ghost ns0 = self.views();
        proof {
            lemma_branch_children(ns0, branch_ref(parent_id), h, lo, hi, after);
            lemma_kept_refl(ns0, branch_ref(parent_id), h, lo, hi, after);
            assert(ns0.branches[parent_id].children.len() == self.branch_arena@[parent_id].children.len());
            assert(ns0.branches[parent_id].keys.len() == self.branch_arena@[parent_id].keys.len());
        }
        let (left_id_opt, right_id_opt, left_sep_opt, right_sep_opt, child_id) = match self.get_branch(parent_id) {
            Some(parent) => {
                let left = if child_index > 0 {
                    match parent.children[child_index - 1] {
                        NodeRef::Branch(id, _) => Some(id),
                        _ => None,
                    }
                } else {
                    None
                };
                let right = if child_index + 1 < parent.children.len() {
                    match parent.children[child_index + 1] {
                        NodeRef::Branch(id, _) => Some(id),
                        _ => None,
                    }
                } else {
                    None
                };
                let left_sep = if left.is_some() {
                    Some(parent.keys[child_index - 1])
                } else {
                    None
                };
                let right_sep = if right.is_some() {
                    Some(parent.keys[child_index])
                } else {
                    None
                };
                let child_id = match parent.children[child_index] {
                    NodeRef::Branch(id, _) => id,
                    _ => {
                        return false;
                    },
                };
                (left, right, left_sep, right_sep, child_id)
            },
            None => {
                return false;
            },
        };
        if let Some((_left_ref, can_donate)) = left_sibling_info {
            if can_donate {
                if let (Some(left_id), Some(sep)) = (left_id_opt, left_sep_opt) {
                    return self.borrow_from_left_branch_with(parent_id, child_index, left_id, child_id, sep,
                        Ghost(h), Ghost(lo), Ghost(hi), Ghost(after));
                }
            }
        }
        if let Some((_right_ref, can_donate)) = right_sibling_info {
            if can_donate {
                if let (Some(right_id), Some(sep)) = (right_id_opt, right_sep_opt) {
                    return self.borrow_from_right_branch_with(parent_id, child_index, child_id, right_id, sep,
                        Ghost(h), Ghost(lo), Ghost(hi), Ghost(after));
                }
            }
        }
        if left_id_opt.is_some() {
            self.merge_with_left_branch(parent_id, child_index, Ghost(h), Ghost(lo), Ghost(hi), Ghost(after))
        } else if right_id_opt.is_some() {
            self.merge_with_right_branch(parent_id, child_index, Ghost(h), Ghost(lo), Ghost(hi), Ghost(after))
        } else {
            false
        }
    }

    /// Whether a node of a sibling can donate, looked up in the arenas.
    fn sibling_can_donate(&self, sibling_ref: &NodeRef<K, V>) -> (r: bool)
        requires
            self.arenas_ok(),
        ensures
            r == can_donate(*self, *sibling_ref),
    {
        match sibling_ref {
            NodeRef::Leaf(id, _) => match self.get_leaf(*id) {
                Some(leaf) => leaf.keys.len() > leaf.min_keys(),
                None => false,
            },
            NodeRef::Branch(id, _) => match self.get_branch(*id) {
                Some(branch) => branch.keys.len() > branch.min_keys(),
                None => false,
            },
        }
    }

    /// Rebalance the underfull child at `child_index` of a branch, by
    /// borrowing from a sibling or merging with one.
    fn rebalance_child(
        &mut self,
        parent_id: NodeId,
        child_index: usize,
        Ghost(h): Ghost<nat>,
        Ghost(lo): Ghost<Option<int>>,
        Ghost(hi): Ghost<Option<int>>,
        Ghost(after): Ghost<NodeId>,
    ) -> (r: bool)
        requires
            old(self).arenas_ok(),
            wf_node(old(self).views(), branch_ref(parent_id), h, lo, hi, after),
            child_index < old(self).views().branches[parent_id].children.len(),
            node_keys_len(*old(self), child_at(*old(self), parent_id, child_index as int)) < old(self).capacity / 2,
        ensures
            kept_by(*old(self), *final(self), parent_id, h, lo, hi, after),
            final(self).views() == rebalanced(*old(self), parent_id, child_index as int).0,
            r == rebalanced(*old(self), parent_id, child_index as int).1,
    {
        let ghost ns0 = self.views();
        proof {
            lemma_wf_basic(ns0, branch_ref(parent_id), h, lo, hi, after);
            lemma_wf_branch_unfold(ns0, branch_ref(parent_id), h, lo, hi, after);
            lemma_kept_refl(ns0, branch_ref(parent_id), h, lo, hi, after);
            assert(ns0.branches[parent_id].children.len() == self.branch_arena@[parent_id].children.len());
            let c = ns0.branches[parent_id].children[child_index as int];
            let ks = ns0.branches[parent_id].keys;
            let cs = ns0.branches[parent_id].children;
            assert(wf_node(ns0, c, (h - 1) as nat, child_lo(ks, child_index as int, lo), child_hi(ks, child_index as int, hi),
                child_after(ns0, cs, child_index as int, (h - 1) as nat, after)));
            lemma_wf_basic(ns0, c, (h - 1) as nat, child_lo(ks, child_index as int, lo), child_hi(ks, child_index as int, hi),
                child_after(ns0, cs, child_index as int, (h - 1) as nat, after));
        }
        let (child_is_leaf, left_sibling_info, right_sibling_info) = match self.get_branch(parent_id) {
            Some(parent_branch) => {
                let child_is_leaf = matches!(parent_branch.children[child_index], NodeRef::Leaf(_, _));
                let left_sibling_info = if child_index > 0 {
                    let sibling_ref = parent_branch.children[child_index - 1];
                    let can_donate = self.sibling_can_donate(&sibling_ref);
                    Some((sibling_ref, can_donate))
                } else {
                    None
                };
                let right_sibling_info = if child_index + 1 < parent_branch.children.len() {
                    let sibling_ref = parent_branch.children[child_index + 1];
                    let can_donate = self.sibling_can_donate(&sibling_ref);
                    Some((sibling_ref, can_donate))
                } else {
                    None
                };
                (child_is_leaf, left_sibling_info, right_sibling_info)
            },
            None => {
                return false;
            },
        };
        if child_is_leaf {
            self.rebalance_leaf(parent_id, child_index, left_sibling_info, right_sibling_info, Ghost(lo),
                Ghost(hi), Ghost(after))
        } else {
            self.rebalance_branch(parent_id, child_index, left_sibling_info, right_sibling_info, Ghost(h),
                Ghost(lo), Ghost(hi), Ghost(after))
        }
    }

    /// Whether a node holds fewer keys than half its capacity; false for a
    /// node that does not exist.
    fn is_node_underfull(&self, node_ref: &NodeRef<K, V>) -> (r: bool)
        requires
            self.arenas_ok(),
        ensures
            r == match *node_ref {
                NodeRef::Leaf(id, _) => self.leaf_arena@.contains_key(id) && self.leaf_arena@[id].keys@.len()
                    < self.leaf_arena@[id].capacity / 2,
                NodeRef::Branch(id, _) => self.branch_arena@.contains_key(id) && self.branch_arena@[id].keys@.len()
                    < self.branch_arena@[id].capacity / 2,
            },
    {
        match node_ref {
            NodeRef::Leaf(id, _) => match self.get_leaf(*id) {
                Some(leaf) => leaf.is_underfull(),
                None => false,
            },
            NodeRef::Branch(id, _) => match self.get_branch(*id) {
                Some(branch) => branch.is_underfull(),
                None => false,
            },
        }
    }

    /// Recursively remove `key` below `node`, a subtree of height `h`
    /// within the key bounds `lo`..`hi` whose last leaf links to `after`;
    /// an underfull child is rebalanced on the way back up. Returns the
    /// removed value and whether `node` is now underfull.
    fn remove_recursive(
        &mut self,
        node: &NodeRef<K, V>,
        key: &K,
        Ghost(h): Ghost<nat>,
        Ghost(lo): Ghost<Option<int>>,
        Ghost(hi): Ghost<Option<int>>,
        Ghost(after): Ghost<NodeId>,
    ) -> (r: RemoveResult<V>)
        requires
            old(self).arenas_ok(),
            wf_node(old(self).views(), *node, h, lo, hi, after),
            rank_in(key.rank(), lo, hi),
        ensures
            final(self).arenas_ok(),
            final(self).root == old(self).root,
            final(self).capacity == old(self).capacity,
            final(self).height == old(self).height,
            final(self).leaf_arena.slot_count() == old(self).leaf_arena.slot_count(),
            final(self).branch_arena.slot_count() == old(self).branch_arena.slot_count(),
            subtree_kept(old(self).views(), final(self).views(), *node, h, lo, hi, after,
                remove_entry(content(old(self).views(), *node, h), *key)),
            old_value_ok(content(old(self).views(), *node, h), *key, r->Updated_0),
            r->Updated_1 ==> node_keys_len(*final(self), *node) < final(self).capacity / 2,
            remove_keeps_fill(*old(self), *final(self), *node, h, r),
        decreases h,
    {
        let ghost ns0 = self.views();
        let ghost t0 = *self;
        proof {
            lemma_wf_basic(ns0, *node, h, lo, hi, after);
        }
        match node {
            NodeRef::Leaf(id, _) => {
                let ghost lv = self.leaf_arena@[*id];
                let r = match self.get_leaf_mut(*id) {
                    Some(leaf) => {
                        let (removed_value, is_underfull) = leaf.remove(key);
                        RemoveResult::Updated(removed_value, is_underfull)
                    },
                    None => RemoveResult::Updated(None, false),
                };
                proof {
                    let ns1 = self.views();
                    let nl = self.leaf_arena@[*id];
                    let c0 = lview(lv).keys;
                    lemma_zip(lv.keys@, lv.values@);
                    let e0 = zip_entries(lv.keys@, lv.values@);
                    assert(content(ns0, *node, h) == e0);
                    assert(ns1.leaves =~= ns0.leaves.insert(*id, lview(nl)));
                    assert(ns1.branches =~= ns0.branches);
                    assert(forall|x: NodeRef<K, V>| #[trigger] in_tree(ns0, *node, 0, x) == (x == *node));
                    assert(forall|x: NodeRef<K, V>| #[trigger] in_tree(ns1, *node, 0, x) == (x == *node));
                    assert forall|x: NodeRef<K, V>| ns0.has(x) && !in_tree(ns0, *node, h, x) implies #[trigger] ns0.same_node(ns1, x) by {
                        if x is Leaf {
                            assert(x.spec_id() != *id);
                        }
                    }
                    assert forall|lid: NodeId| #[trigger] self.leaf_arena@.contains_key(lid) implies self.leaf_arena@[lid].capacity == self.capacity by {
                        assert(t0.leaf_arena@.contains_key(lid));
                    }
                    if lv.keys@.contains(*key) {
                        let i = choose|i: int| 0 <= i < lv.keys@.len() && lv.keys@[i] == *key;
                        assert(is_lower_index(entry_keys(e0), *key, i)) by {
                            assert forall|j: int| 0 <= j < i implies #[trigger] entry_keys(e0)[j].rank() < key.rank() by {
                                assert(lv.keys@[j].rank() < lv.keys@[i].rank());
                            }
                            assert forall|j: int| i <= j < e0.len() implies key.rank() <= #[trigger] entry_keys(e0)[j].rank() by {
                                if j > i {
                                    assert(lv.keys@[i].rank() < lv.keys@[j].rank());
                                }
                            }
                        }
                        lemma_choose_lower_index(e0, *key, i);
                        assert(zip_entries(nl.keys@, nl.values@) =~= e0.remove(i));
                        lemma_zip(nl.keys@, nl.values@);
                        assert(e0[i] == (*key, lv.values@[i]));
                        assert forall|p1: int, q1: int| 0 <= p1 < q1 < nl.keys@.len() implies #[trigger] nl.keys@[p1].rank() < #[trigger] nl.keys@[q1].rank() by {
                            let po = if p1 < i { p1 } else { p1 + 1 };
                            let qo = if q1 < i { q1 } else { q1 + 1 };
                            assert(lv.keys@[po].rank() < lv.keys@[qo].rank());
                        }
                        assert forall|t: int| 0 <= t < nl.keys@.len() implies rank_in(#[trigger] nl.keys@[t].rank(), lo, hi) by {
                            let to = if t < i { t } else { t + 1 };
                            assert(nl.keys@[t] == lv.keys@[to]);
                        }
                    } else {
                        crate::sorted::lemma_lower_index_exists(e0, *key);
                        let p = choose|p: int| is_lower_index(entry_keys(e0), *key, p);
                        if p < e0.len() && e0[p].0 == *key {
                            assert(lv.keys@[p] == *key);
                        }
                        assert(!has_key(e0, *key)) by {
                            if has_key(e0, *key) {
                                let j = choose|j: int| 0 <= j < e0.len() && #[trigger] e0[j].0 == *key;
                                assert(lv.keys@[j] == *key);
                            }
                        }
                    }
                }
                proof {
                    let ns1 = self.views();
                    let cap = t0.capacity as int;
                    if t0.half_full() {
                        lemma_half_full_views(t0);
                        assert(ns1.branches == ns0.branches);
                        assert forall|lid: NodeId| #[trigger] ns1.leaves.contains_key(lid)
                            && !set![t0.root, *node].contains(NodeRef::Leaf(lid, PhantomData))
                            implies ns1.leaves[lid].keys.len() >= cap / 2 by {
                            assert(NodeRef::<K, V>::Leaf(lid, PhantomData) != *node);
                            assert(ns0.leaves.contains_key(lid));
                            assert(ns1.leaves[lid] == ns0.leaves[lid]);
                        }
                        assert(full_enough(ns1, cap, set![t0.root, *node]));
                        assert(set![t0.root, *node, only_child(ns1, *node)] =~= set![t0.root, *node]);
                    }
                    assert(remove_keeps_fill(t0, *self, *node, h, r));
                }
                r
            },
            NodeRef::Branch(id, _) => {
                let id = *id;
                let ghost b = ns0.branches[id];
                let ghost ch = (h - 1) as nat;
                proof {
                    lemma_locate(ns0, *node, h, lo, hi, after, *key);
                    lemma_wf_branch_unfold(ns0, *node, h, lo, hi, after);
                    assert(b == bview(self.branch_arena@[id]));
                }
                let found = self.get_child_for_key(id, key);
                proof {
                    let bb = self.branch_arena@[id];
                    let ii = child_pos(bb.keys@, *key);
                    assert(bb.children@.len() == bb.children.len());
                    assert((ii as usize) as int == ii);
                }
                let (child_index, child_ref) = match found {
                    Some(info) => info,
                    None => {
                        return RemoveResult::Updated(None, false);
                    },
                };
                let ghost i = child_index as int;
                let child_result = self.remove_recursive(
                    &child_ref,
                    key,
                    Ghost(ch),
                    Ghost(child_lo(b.keys, i, lo)),
                    Ghost(child_hi(b.keys, i, hi)),
                    Ghost(child_after(ns0, b.children, i, ch, after)),
                );
                let ghost ns1 = self.views();
                let ghost t1 = *self;
                match child_result {
                    RemoveResult::Updated(removed_value, child_became_underfull) => {
                        proof {
                            lemma_remove_branch_updated(ns0, ns1, *node, h, lo, hi, after, *key, removed_value);
                            assert(*node == branch_ref::<K, V>(id));
                            lemma_kept_refl(ns1, *node, h, lo, hi, after);
                            assert(ns1.branches[id].children.len() == b.children.len());
                        }
                        if removed_value.is_some() && child_became_underfull {
                            let _child_still_exists = self.rebalance_child(id, child_index, Ghost(h), Ghost(lo),
                                Ghost(hi), Ghost(after));
                        }
                        proof {
                            lemma_kept_trans(ns0, ns1, self.views(), *node, h, lo, hi, after,
                                remove_entry(content(ns0, *node, h), *key), remove_entry(content(ns0, *node, h), *key));
                        }
                        let is_underfull = if removed_value.is_some() {
                            self.is_node_underfull(&NodeRef::Branch(id, PhantomData))
                        } else {
                            false
                        };
                        proof {
                            self.lemma_branch_remove_fill(t0, t1, id, i, h, lo, hi, after, child_result,
                                removed_value is Some && child_became_underfull);
                        }
                        RemoveResult::Updated(removed_value, is_underfull)
                    },
                }
            },
        }
    }

    /// Replace the root by a new empty leaf.
    fn create_empty_root_leaf(&mut self)
        requires
            old(self).arenas_ok(),
            old(self).leaf_arena.slot_count() < NULL_NODE,
        ensures
            final(self).arenas_ok(),
            final(self).root is Leaf,
            final(self).leaf_arena@ == old(self).leaf_arena@.insert(final(self).root.spec_id(), LeafNode {
                capacity: old(self).capacity,
                keys: final(self).leaf_arena@[final(self).root.spec_id()].keys,
                values: final(self).leaf_arena@[final(self).root.spec_id()].values,
                next: NULL_NODE,
            }),
            final(self).leaf_arena@[final(self).root.spec_id()].keys@.len() == 0,
            final(self).leaf_arena@[final(self).root.spec_id()].values@.len() == 0,
            !old(self).leaf_arena@.contains_key(final(self).root.spec_id()),
            final(self).branch_arena == old(self).branch_arena,
            final(self).capacity == old(self).capacity,
            final(self).height == old(self).height,
    {
        let empty_id = self.allocate_leaf(LeafNode::new(self.capacity));
        self.root = NodeRef::Leaf(empty_id, PhantomData);
        proof {
            assert forall|lid: NodeId| #[trigger] self.leaf_arena@.contains_key(lid) implies self.leaf_arena@[lid].capacity == self.capacity by {
                if lid != empty_id {
                    assert(old(self).leaf_arena@.contains_key(lid));
                }
            }
        }
    }

    /// Collapse the root while it is a branch with a single child, which
    /// becomes the root; an empty root branch becomes an empty leaf.
    fn collapse_root_if_needed(&mut self)
        requires
            old(self).wf(),
        ensures
            final(self).wf(),
            final(self).entries() == old(self).entries(),
            final(self).capacity == old(self).capacity,
            final(self).root == collapsed_root(old(self).views(), old(self).root, old(self).height@).0,
            final(self).height@ == collapsed_root(old(self).views(), old(self).root, old(self).height@).1,
            final(self).views().leaves == old(self).views().leaves,
            final(self).views().branches == old(self).views().branches.remove_keys(
                collapsed_ids(old(self).views(), old(self).root, old(self).height@),
            ),
            final(self).branch_arena.slot_count() == old(self).branch_arena.slot_count(),
            old(self).no_stray_nodes() ==> final(self).no_stray_nodes(),
    {
        let ghost e = self.entries();
        let ghost ns_old = self.views();
        let ghost target = collapsed_root(ns_old, self.root, self.height@);
        let ghost all_ids = collapsed_ids(ns_old, self.root, self.height@);
        let ghost mut removed: Set<NodeId> = Set::empty();
        loop
            invariant
                self.wf(),
                self.entries() == e,
                self.capacity == old(self).capacity,
                ns_old == old(self).views(),
                target == collapsed_root(old(self).views(), old(self).root, old(self).height@),
                collapsed_root(ns_old, self.root, self.height@) == target,
                self.views().leaves == ns_old.leaves,
                self.views().branches.submap_of(ns_old.branches),
                all_ids == collapsed_ids(old(self).views(), old(self).root, old(self).height@),
                all_ids == removed + collapsed_ids(ns_old, self.root, self.height@),
                self.views().branches.dom() == ns_old.branches.dom() - removed,
                self.branch_arena.slot_count() == old(self).branch_arena.slot_count(),
                old(self).no_stray_nodes() ==> self.no_stray_nodes(),
            ensures
                collapsed_root(ns_old, self.root, self.height@) == (self.root, self.height@),
                collapsed_ids(ns_old, self.root, self.height@) == Set::<NodeId>::empty(),
            decreases self.height@,
        {
            let ghost ns0 = self.views();
            proof {
                lemma_wf_basic(ns0, self.root, self.height@, None, None, NULL_NODE);
                if self.root is Branch {
                    lemma_wf_branch_unfold(ns0, self.root, self.height@, None, None, NULL_NODE);
                }
            }
            let root_branch_id = match self.root {
                NodeRef::Branch(id, _) => Some(id),
                NodeRef::Leaf(_, _) => None,
            };
            let branch_info = match root_branch_id {
                Some(branch_id) => match self.get_branch(branch_id) {
                    Some(branch) => Some(
                        (
                            branch_id,
                            branch.children.len(),
                            if branch.children.len() > 0 {
                                Some(branch.children[0])
                            } else {
                                None
                            },
                        ),
                    ),
                    None => None,
                },
                None => None,
            };
            match branch_info {
                Some((branch_id, 0, _)) => {
                    self.create_empty_root_leaf();
                    self.deallocate_branch(branch_id);
                    break ;
                },
                Some((branch_id, 1, Some(child))) => {
                    let ghost h = self.height@;
                    let ghost old_root = self.root;
                    self.root = child;
                    self.height = Ghost((h - 1) as nat);
                    self.deallocate_branch(branch_id);
                    proof {
                        let ns1 = self.views();
                        assert(ns1.leaves == ns0.leaves);
                        assert(ns1.branches =~= ns0.branches.remove(branch_id));
                        lemma_collapse(ns0, ns1, old_root, h);
                        if old(self).no_stray_nodes() {
                            assert forall|x: NodeRef<K, V>| #[trigger] ns1.has(x) implies in_tree(ns1, self.root, self.height@, x) by {
                                assert(ns0.has(x));
                                assert(x != old_root);
                                assert(in_tree(ns0, old_root, h, x));
                            }
                        }
                        assert(ns0.branches[branch_id].children.len() == 1);
                        assert(ns_old.branches[branch_id] == ns0.branches[branch_id]);
                        assert(ns1.branches.submap_of(ns_old.branches));
                        assert(collapsed_ids(ns_old, old_root, h) == collapsed_ids(ns_old, child, (h - 1) as nat).insert(branch_id));
                        removed = removed.insert(branch_id);
                        assert(all_ids =~= removed + collapsed_ids(ns_old, self.root, self.height@));
                        assert(ns1.branches.dom() =~= ns_old.branches.dom() - removed);
                    }
                },
                Some((branch_id, _, _)) => {
                    proof {
                        assert(ns_old.branches[branch_id] == ns0.branches[branch_id]);
                    }
                    break ;
                },
                None => {
                    if root_branch_id.is_some() {
                        self.create_empty_root_leaf();
                    }
                    break ;
                },
            }
        }
        proof {
            assert(all_ids =~= removed);
            assert(self.views().branches =~= ns_old.branches.remove_keys(all_ids));
        }
    }

    /// Remove a key from the tree and return its value, if it was present.
    pub fn remove(&mut self, key: &K) -> (r: Option<V>)
        requires
            old(self).wf(),
        ensures
            final(self).wf(),
            final(self).capacity == old(self).capacity,
            final(self).entries() == remove_entry(old(self).entries(), *key),
            final(self)@ == old(self)@.remove(*key),
            r == (if old(self)@.contains_key(*key) {
                Some(old(self)@[*key])
            } else {
                None
            }),
            old(self).half_full() ==> final(self).half_full(),
            old(self).half_full() ==> final(self).check_invariants_spec(),
            old(self).arenas_match_tree() ==> final(self).arenas_match_tree(),
    {
        let ghost c0 = self.entries();
        let ghost t0 = *self;
        proof {
            self.lemma_entries_sorted();
            lemma_map_remove_entry(c0, *key);
            self.lemma_arenas_match_iff();
        }
        let root = self.root;
        let result = self.remove_recursive(&root, key, Ghost(self.height@), Ghost(None), Ghost(None),
            Ghost(NULL_NODE));
        let ghost t1 = *self;
        proof {
            if t0.no_stray_nodes() {
                assert forall|x: NodeRef<K, V>| #[trigger] t1.views().has(x) implies in_tree(t1.views(), t1.root, t1.height@, x) by {
                    assert(t0.views().has(x));
                    assert(in_tree(t0.views(), root, t0.height@, x));
                }
            }
        }
        match result {
            RemoveResult::Updated(removed_value, _root_became_underfull) => {
                if removed_value.is_some() {
                    self.collapse_root_if_needed();
                }
                proof {
                    if t0.half_full() {
                        self.lemma_remove_collapse_fill(t0, t1, removed_value is Some);
                        crate::occupancy::lemma_tree_checks(*self);
                    }
                }
                proof {
                    if removed_value is Some {
                        lemma_map_get(c0, *key, removed_value->Some_0);
                    }
                    self.lemma_arenas_match_iff();
                }
                removed_value
            },
        }
    }

    /// Remove a key, or `KeyNotFound` if it is absent.
    pub fn remove_item(&mut self, key: &K) -> (r: ModifyResult<V>)
        requires
            old(self).wf(),
        ensures
            final(self).wf(),
            final(self).capacity == old(self).capacity,
            final(self).entries() == remove_entry(old(self).entries(), *key),
            final(self)@ == old(self)@.remove(*key),
            old(self)@.contains_key(*key) ==> r == Ok::<V, BPlusTreeError>(old(self)@[*key]),
            !old(self)@.contains_key(*key) ==> r is Err && r->Err_0 is KeyNotFound,
            old(self).half_full() ==> final(self).half_full(),
            old(self).half_full() ==> final(self).check_invariants_spec(),
            old(self).arenas_match_tree() ==> final(self).arenas_match_tree(),
    {
        match self.remove(key) {
            Some(v) => Ok(v),
            None => Err(BPlusTreeError::KeyNotFound),
        }
    }
}

} // verus!
