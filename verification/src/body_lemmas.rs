//! How a branch body stays well-formed when its children change: framing,
//! splitting a body in two, and putting a split child's two halves in the
//! place of the child.
use crate::tree_spec::{
    child_after, child_hi, child_lo, children_contents, children_disjoint, children_leaf_seq,
    content, in_children, in_tree, keys_in, lemma_children_contents, lemma_first_leaf,
    lemma_frame, lemma_wf_basic, leaf_seq, leaf_seqs_of, rank_in, wf_branch_body, wf_node,
    BranchView, NodeViews,
};
use crate::sorted::{all_above, all_below, child_pos, entries_sorted, keys_sorted, lemma_child_pos_exists};
use crate::flatten::lemma_flatten_contains;
use crate::types::{NodeId, NodeRef, TreeKey};
use vstd::prelude::*;

verus! {

/// A branch body is unaffected by changes outside the subtrees of its
/// children.
pub proof fn lemma_body_frame<K: TreeKey, V>(
    ns0: NodeViews<K, V>,
    ns1: NodeViews<K, V>,
    b: BranchView<K, V>,
    ch: nat,
    lo: Option<int>,
    hi: Option<int>,
    after: NodeId,
)
    requires
        wf_branch_body(ns0, b, ch, lo, hi, after),
        forall|r: NodeRef<K, V>| #[trigger] in_children(ns0, b.children, ch, r) ==> ns0.same_node(ns1, r),
    ensures
        wf_branch_body(ns1, b, ch, lo, hi, after),
        children_contents(ns1, b.children, ch) == children_contents(ns0, b.children, ch),
        leaf_seqs_of(ns1, b.children, ch) == leaf_seqs_of(ns0, b.children, ch),
        forall|r: NodeRef<K, V>| #[trigger] in_children(ns1, b.children, ch, r) == in_children(ns0, b.children, ch, r),
{
    let cs = b.children;
    assert forall|i: int| 0 <= i < cs.len() implies {
        &&& wf_node(ns1, #[trigger] cs[i], ch, child_lo(b.keys, i, lo), child_hi(b.keys, i, hi),
            child_after(ns0, cs, i, ch, after))
        &&& content(ns1, cs[i], ch) == content(ns0, cs[i], ch)
        &&& leaf_seq(ns1, cs[i], ch) == leaf_seq(ns0, cs[i], ch)
        &&& forall|r: NodeRef<K, V>| #[trigger] in_tree(ns1, cs[i], ch, r) == in_tree(ns0, cs[i], ch, r)
    } by {
        assert(wf_node(ns0, cs[i], ch, child_lo(b.keys, i, lo), child_hi(b.keys, i, hi),
            child_after(ns0, cs, i, ch, after)));
        assert forall|r: NodeRef<K, V>| #[trigger] in_tree(ns0, cs[i], ch, r) implies ns0.same_node(ns1, r) by {
            assert(in_children(ns0, cs, ch, r));
        }
        lemma_frame(ns0, ns1, cs[i], ch, child_lo(b.keys, i, lo), child_hi(b.keys, i, hi),
            child_after(ns0, cs, i, ch, after));
    }
    assert forall|i: int| 0 <= i < cs.len() implies #[trigger] child_after(ns1, cs, i, ch, after)
        == child_after(ns0, cs, i, ch, after) by {
        if i + 1 < cs.len() {
            assert(leaf_seq(ns1, cs[i + 1], ch) == leaf_seq(ns0, cs[i + 1], ch));
        }
    }
    assert forall|i: int| 0 <= i < cs.len() implies #[trigger] wf_node(ns1, cs[i], ch,
        child_lo(b.keys, i, lo), child_hi(b.keys, i, hi), child_after(ns1, cs, i, ch, after)) by {
        assert(child_after(ns1, cs, i, ch, after) == child_after(ns0, cs, i, ch, after));
    }
    assert forall|i: int, j: int, r: NodeRef<K, V>|
        0 <= i < j < cs.len() && #[trigger] in_tree(ns1, cs[i], ch, r) implies !#[trigger] in_tree(ns1, cs[j], ch, r) by {
        assert(in_tree(ns0, cs[i], ch, r));
    }
    lemma_children_contents(ns0, cs, ch);
    lemma_children_contents(ns1, cs, ch);
    assert(children_contents(ns1, cs, ch) =~= children_contents(ns0, cs, ch));
    assert(leaf_seqs_of(ns1, cs, ch) =~= leaf_seqs_of(ns0, cs, ch));
    assert forall|r: NodeRef<K, V>| #[trigger] in_children(ns1, cs, ch, r) == in_children(ns0, cs, ch, r) by {
        if in_children(ns1, cs, ch, r) {
            let i = choose|i: int| 0 <= i < cs.len() && #[trigger] in_tree(ns1, cs[i], ch, r);
            assert(in_tree(ns0, cs[i], ch, r));
        }
        if in_children(ns0, cs, ch, r) {
            let i = choose|i: int| 0 <= i < cs.len() && #[trigger] in_tree(ns0, cs[i], ch, r);
            assert(in_tree(ns1, cs[i], ch, r));
        }
    }
}

/// The left part of a branch body split at key `mid`.
pub open spec fn body_left<K, V>(b: BranchView<K, V>, mid: int) -> BranchView<K, V> {
    BranchView { keys: b.keys.subrange(0, mid), children: b.children.subrange(0, mid + 1) }
}

/// The right part of a branch body split at key `mid`.
pub open spec fn body_right<K, V>(b: BranchView<K, V>, mid: int) -> BranchView<K, V> {
    BranchView {
        keys: b.keys.subrange(mid + 1, b.keys.len() as int),
        children: b.children.subrange(mid + 1, b.children.len() as int),
    }
}

/// Splitting a well-formed body around key `mid` gives two well-formed
/// bodies, bounded by that key, whose children together are the original
/// children.
#[verifier::spinoff_prover]
pub proof fn lemma_split_body<K: TreeKey, V>(
    ns: NodeViews<K, V>,
    b: BranchView<K, V>,
    ch: nat,
    lo: Option<int>,
    hi: Option<int>,
    after: NodeId,
    mid: int,
)
    requires
        wf_branch_body(ns, b, ch, lo, hi, after),
        0 < mid < b.keys.len(),
    ensures
        ({
            let l = body_left(b, mid);
            let r = body_right(b, mid);
            let sep = b.keys[mid].rank();
            &&& wf_branch_body(ns, l, ch, lo, Some(sep), leaf_seq(ns, b.children[mid + 1], ch)[0])
            &&& wf_branch_body(ns, r, ch, Some(sep), hi, after)
            &&& rank_in(sep, lo, hi)
            &&& (lo matches Some(x) ==> x < sep)
            &&& children_contents(ns, b.children, ch) == children_contents(ns, l.children, ch)
                + children_contents(ns, r.children, ch)
            &&& children_leaf_seq(ns, l.children, ch).len() > 0
            &&& children_leaf_seq(ns, l.children, ch)[0] == children_leaf_seq(ns, b.children, ch)[0]
            &&& children_leaf_seq(ns, r.children, ch).len() > 0
            &&& children_leaf_seq(ns, r.children, ch)[0] == leaf_seq(ns, b.children[mid + 1], ch)[0]
            &&& forall|x: NodeRef<K, V>| #[trigger] in_children(ns, b.children, ch, x) == (in_children(ns, l.children, ch, x) || in_children(ns, r.children, ch, x))
            &&& forall|x: NodeRef<K, V>| #[trigger] in_children(ns, l.children, ch, x) ==> !in_children(ns, r.children, ch, x)
        }),
{
    let l = body_left(b, mid);
    let r = body_right(b, mid);
    let cs = b.children;
    let ks = b.keys;
    let sep = ks[mid].rank();
    let la = leaf_seq(ns, cs[mid + 1], ch)[0];
    assert(rank_in(ks[mid].rank(), lo, hi));
    assert(ks[0].rank() < ks[mid].rank());
    assert(rank_in(ks[0].rank(), lo, hi));
    // left body
    assert forall|j: int| 0 <= j < l.children.len() implies #[trigger] wf_node(ns, l.children[j], ch,
        child_lo(l.keys, j, lo), child_hi(l.keys, j, Some(sep)), child_after(ns, l.children, j, ch, la)) by {
        assert(l.children[j] == cs[j]);
        assert(wf_node(ns, cs[j], ch, child_lo(ks, j, lo), child_hi(ks, j, hi), child_after(ns, cs, j, ch, after)));
        assert(child_lo(l.keys, j, lo) == child_lo(ks, j, lo));
        assert(child_hi(l.keys, j, Some(sep)) == child_hi(ks, j, hi));
        if j + 1 < l.children.len() {
            assert(l.children[j + 1] == cs[j + 1]);
        }
        assert(child_after(ns, l.children, j, ch, la) == child_after(ns, cs, j, ch, after));
    }
    assert forall|j: int| 0 <= j < l.keys.len() implies rank_in(#[trigger] l.keys[j].rank(), lo, Some(sep)) by {
        assert(l.keys[j] == ks[j]);
        assert(rank_in(ks[j].rank(), lo, hi));
        assert(ks[j].rank() < ks[mid].rank());
    }
    assert forall|i: int, j: int| 0 <= i < j < l.keys.len() implies #[trigger] l.keys[i].rank() < #[trigger] l.keys[j].rank() by {
        assert(ks[i].rank() < ks[j].rank());
    }
    assert(keys_sorted(l.keys));
    assert(keys_in(l.keys, lo, Some(sep)));
    assert forall|i: int, j: int, x: NodeRef<K, V>|
        0 <= i < j < l.children.len() && #[trigger] in_tree(ns, l.children[i], ch, x) implies !#[trigger] in_tree(ns, l.children[j], ch, x) by {
        assert(l.children[i] == cs[i] && l.children[j] == cs[j]);
    }
    assert(children_disjoint(ns, l.children, ch));
    assert(wf_branch_body(ns, l, ch, lo, Some(sep), la));
    // right body
    assert forall|j: int| 0 <= j < r.children.len() implies #[trigger] wf_node(ns, r.children[j], ch,
        child_lo(r.keys, j, Some(sep)), child_hi(r.keys, j, hi), child_after(ns, r.children, j, ch, after)) by {
        let k = j + mid + 1;
        assert(r.children[j] == cs[k]);
        assert(wf_node(ns, cs[k], ch, child_lo(ks, k, lo), child_hi(ks, k, hi), child_after(ns, cs, k, ch, after)));
        assert(child_lo(r.keys, j, Some(sep)) == child_lo(ks, k, lo));
        assert(child_hi(r.keys, j, hi) == child_hi(ks, k, hi));
        if j + 1 < r.children.len() {
            assert(r.children[j + 1] == cs[k + 1]);
        }
        assert(child_after(ns, r.children, j, ch, after) == child_after(ns, cs, k, ch, after));
    }
    assert forall|j: int| 0 <= j < r.keys.len() implies rank_in(#[trigger] r.keys[j].rank(), Some(sep), hi) by {
        assert(r.keys[j] == ks[j + mid + 1]);
        assert(rank_in(ks[j + mid + 1].rank(), lo, hi));
        assert(ks[mid].rank() < ks[j + mid + 1].rank());
    }
    assert forall|i: int, j: int| 0 <= i < j < r.keys.len() implies #[trigger] r.keys[i].rank() < #[trigger] r.keys[j].rank() by {
        assert(ks[i + mid + 1].rank() < ks[j + mid + 1].rank());
    }
    assert(keys_sorted(r.keys));
    assert(keys_in(r.keys, Some(sep), hi));
    assert forall|i: int, j: int, x: NodeRef<K, V>|
        0 <= i < j < r.children.len() && #[trigger] in_tree(ns, r.children[i], ch, x) implies !#[trigger] in_tree(ns, r.children[j], ch, x) by {
        assert(r.children[i] == cs[i + mid + 1] && r.children[j] == cs[j + mid + 1]);
    }
    assert(children_disjoint(ns, r.children, ch));
    assert(wf_branch_body(ns, r, ch, Some(sep), hi, after));
    // contents and leaves
    lemma_children_contents(ns, cs, ch);
    lemma_children_contents(ns, l.children, ch);
    lemma_children_contents(ns, r.children, ch);
    assert(children_contents(ns, cs, ch) =~= children_contents(ns, l.children, ch) + children_contents(ns, r.children, ch));
    assert(wf_node(ns, cs[0], ch, child_lo(ks, 0, lo), child_hi(ks, 0, hi), child_after(ns, cs, 0, ch, after)));
    lemma_wf_basic(ns, cs[0], ch, child_lo(ks, 0, lo), child_hi(ks, 0, hi), child_after(ns, cs, 0, ch, after));
    assert(wf_node(ns, cs[mid + 1], ch, child_lo(ks, mid + 1, lo), child_hi(ks, mid + 1, hi), child_after(ns, cs, mid + 1, ch, after)));
    lemma_wf_basic(ns, cs[mid + 1], ch, child_lo(ks, mid + 1, lo), child_hi(ks, mid + 1, hi), child_after(ns, cs, mid + 1, ch, after));
    assert(l.children[0] == cs[0]);
    assert(r.children[0] == cs[mid + 1]);
    lemma_first_leaf(ns, cs, ch);
    lemma_first_leaf(ns, l.children, ch);
    lemma_first_leaf(ns, r.children, ch);
    assert forall|x: NodeRef<K, V>| #[trigger] in_children(ns, cs, ch, x) == (in_children(ns, l.children, ch, x) || in_children(ns, r.children, ch, x)) by {
        if in_children(ns, cs, ch, x) {
            let i = choose|i: int| 0 <= i < cs.len() && #[trigger] in_tree(ns, cs[i], ch, x);
            if i <= mid {
                assert(in_tree(ns, l.children[i], ch, x));
            } else {
                assert(in_tree(ns, r.children[i - mid - 1], ch, x));
            }
        }
        if in_children(ns, l.children, ch, x) {
            let i = choose|i: int| 0 <= i < l.children.len() && #[trigger] in_tree(ns, l.children[i], ch, x);
            assert(in_tree(ns, cs[i], ch, x));
        }
        if in_children(ns, r.children, ch, x) {
            let i = choose|i: int| 0 <= i < r.children.len() && #[trigger] in_tree(ns, r.children[i], ch, x);
            assert(in_tree(ns, cs[i + mid + 1], ch, x));
        }
    }
    assert forall|x: NodeRef<K, V>| #[trigger] in_children(ns, l.children, ch, x) implies !in_children(ns, r.children, ch, x) by {
        let i = choose|i: int| 0 <= i < l.children.len() && #[trigger] in_tree(ns, l.children[i], ch, x);
        assert(in_tree(ns, cs[i], ch, x));
        if in_children(ns, r.children, ch, x) {
            let j = choose|j: int| 0 <= j < r.children.len() && #[trigger] in_tree(ns, r.children[j], ch, x);
            assert(in_tree(ns, cs[j + mid + 1], ch, x));
        }
    }
}

/// A body with child `i` split in two: the separator goes in at `i` and the
/// new right child after child `i`.
pub open spec fn body_insert<K, V>(b: BranchView<K, V>, i: int, sep: K, rn: NodeRef<K, V>) -> BranchView<K, V> {
    BranchView { keys: b.keys.insert(i, sep), children: b.children.insert(i + 1, rn) }
}

/// The children of a well-formed body other than child `i` are untouched
/// by changes that keep their nodes.
pub proof fn lemma_frame_other_children<K: TreeKey, V>(
    ns0: NodeViews<K, V>,
    ns1: NodeViews<K, V>,
    b: BranchView<K, V>,
    ch: nat,
    lo: Option<int>,
    hi: Option<int>,
    after: NodeId,
    i: int,
)
    requires
        wf_branch_body(ns0, b, ch, lo, hi, after),
        0 <= i < b.children.len(),
        forall|r: NodeRef<K, V>|
            in_children(ns0, b.children, ch, r) && !in_tree(ns0, b.children[i], ch, r)
                ==> #[trigger] ns0.same_node(ns1, r),
    ensures
        forall|j: int| 0 <= j < b.children.len() && j != i ==> {
            &&& wf_node(ns1, #[trigger] b.children[j], ch, child_lo(b.keys, j, lo), child_hi(b.keys, j, hi),
                child_after(ns0, b.children, j, ch, after))
            &&& content(ns1, b.children[j], ch) == content(ns0, b.children[j], ch)
            &&& leaf_seq(ns1, b.children[j], ch) == leaf_seq(ns0, b.children[j], ch)
            &&& forall|r: NodeRef<K, V>| #[trigger] in_tree(ns1, b.children[j], ch, r) == in_tree(ns0, b.children[j], ch, r)
        },
        forall|j: int, r: NodeRef<K, V>| 0 <= j < b.children.len() && #[trigger] in_tree(ns0, b.children[j], ch, r) ==> ns0.has(r),
{
    let cs = b.children;
    let ks = b.keys;
    assert forall|j: int| 0 <= j < cs.len() && j != i implies {
        &&& wf_node(ns1, #[trigger] cs[j], ch, child_lo(ks, j, lo), child_hi(ks, j, hi),
            child_after(ns0, cs, j, ch, after))
        &&& content(ns1, cs[j], ch) == content(ns0, cs[j], ch)
        &&& leaf_seq(ns1, cs[j], ch) == leaf_seq(ns0, cs[j], ch)
        &&& forall|r: NodeRef<K, V>| #[trigger] in_tree(ns1, cs[j], ch, r) == in_tree(ns0, cs[j], ch, r)
    } by {
        assert(wf_node(ns0, cs[j], ch, child_lo(ks, j, lo), child_hi(ks, j, hi),
            child_after(ns0, cs, j, ch, after)));
        assert forall|r: NodeRef<K, V>| #[trigger] in_tree(ns0, cs[j], ch, r) implies ns0.same_node(ns1, r) by {
            assert(in_children(ns0, cs, ch, r));
            assert(!in_tree(ns0, cs[i], ch, r));
        }
        lemma_frame(ns0, ns1, cs[j], ch, child_lo(ks, j, lo), child_hi(ks, j, hi),
            child_after(ns0, cs, j, ch, after));
    }
    assert forall|j: int, r: NodeRef<K, V>| 0 <= j < cs.len() && #[trigger] in_tree(ns0, cs[j], ch, r) implies ns0.has(r) by {
        lemma_wf_basic(ns0, cs[j], ch, child_lo(ks, j, lo), child_hi(ks, j, hi),
            child_after(ns0, cs, j, ch, after));
    }
}

/// Inserting a key between its neighbours keeps keys sorted and in bounds.
pub proof fn lemma_insert_key<K: TreeKey>(ks: Seq<K>, i: int, sep: K, lo: Option<int>, hi: Option<int>)
    requires
        keys_sorted(ks),
        keys_in(ks, lo, hi),
        0 <= i <= ks.len(),
        rank_in(sep.rank(), child_lo(ks, i, lo), child_hi(ks, i, hi)),
        child_lo(ks, i, lo) matches Some(x) ==> x < sep.rank(),
    ensures
        keys_sorted(ks.insert(i, sep)),
        keys_in(ks.insert(i, sep), lo, hi),
{
    let ks2 = ks.insert(i, sep);
    let s = sep.rank();
    if i > 0 {
        assert(child_lo(ks, i, lo) == Some(ks[i - 1].rank()));
    }
    if i < ks.len() {
        assert(child_hi(ks, i, hi) == Some(ks[i].rank()));
    }
    assert forall|p: int, q: int| 0 <= p < q < ks2.len() implies #[trigger] ks2[p].rank() < #[trigger] ks2[q].rank() by {
        if q < i {
            assert(ks[p].rank() < ks[q].rank());
        } else if q == i {
            crate::tree_spec::lemma_sorted_le(ks, p, i - 1);
        } else if p < i {
            crate::tree_spec::lemma_sorted_le(ks, p, i - 1);
            crate::tree_spec::lemma_sorted_le(ks, i, q - 1);
        } else if p == i {
            crate::tree_spec::lemma_sorted_le(ks, i, q - 1);
        } else {
            assert(ks[p - 1].rank() < ks[q - 1].rank());
        }
    }
    crate::tree_spec::lemma_child_bounds(ks, i, lo, hi, s);
    assert forall|p: int| 0 <= p < ks2.len() implies rank_in(#[trigger] ks2[p].rank(), lo, hi) by {
        if p < i {
            assert(ks2[p] == ks[p]);
        } else if p > i {
            assert(ks2[p] == ks[p - 1]);
        }
    }
}

/// What a split of child `i` into itself and `rn` must satisfy in the new
/// views for the parent body to take the new child.
pub open spec fn split_child_ok<K: TreeKey, V>(
    ns0: NodeViews<K, V>,
    ns1: NodeViews<K, V>,
    b: BranchView<K, V>,
    ch: nat,
    lo: Option<int>,
    hi: Option<int>,
    after: NodeId,
    i: int,
    sep: K,
    rn: NodeRef<K, V>,
) -> bool {
    &&& wf_node(ns1, b.children[i], ch, child_lo(b.keys, i, lo), Some(sep.rank()),
        leaf_seq(ns1, rn, ch)[0])
    &&& wf_node(ns1, rn, ch, Some(sep.rank()), child_hi(b.keys, i, hi),
        child_after(ns0, b.children, i, ch, after))
    &&& rank_in(sep.rank(), child_lo(b.keys, i, lo), child_hi(b.keys, i, hi))
    &&& (child_lo(b.keys, i, lo) matches Some(x) ==> x < sep.rank())
    &&& leaf_seq(ns1, b.children[i], ch)[0] == leaf_seq(ns0, b.children[i], ch)[0]
    &&& forall|r: NodeRef<K, V>|
        #[trigger] in_tree(ns1, b.children[i], ch, r) ==> in_tree(ns0, b.children[i], ch, r)
            || !ns0.has(r)
    &&& forall|r: NodeRef<K, V>|
        #[trigger] in_tree(ns1, rn, ch, r) ==> in_tree(ns0, b.children[i], ch, r) || !ns0.has(r)
    &&& forall|r: NodeRef<K, V>|
        #[trigger] in_tree(ns1, b.children[i], ch, r) ==> !in_tree(ns1, rn, ch, r)
}

/// Each child of the body with the split child's halves is well-formed in
/// its place.
#[verifier::spinoff_prover]
#[verifier::rlimit(40)]
proof fn lemma_insert_child_nodes<K: TreeKey, V>(
    ns0: NodeViews<K, V>,
    ns1: NodeViews<K, V>,
    b: BranchView<K, V>,
    ch: nat,
    lo: Option<int>,
    hi: Option<int>,
    after: NodeId,
    i: int,
    sep: K,
    rn: NodeRef<K, V>,
)
    requires
        b.children.len() == b.keys.len() + 1,
        0 <= i < b.children.len(),
        split_child_ok(ns0, ns1, b, ch, lo, hi, after, i, sep, rn),
        forall|j: int| 0 <= j < b.children.len() && j != i ==> {
            &&& wf_node(ns1, #[trigger] b.children[j], ch, child_lo(b.keys, j, lo), child_hi(b.keys, j, hi),
                child_after(ns0, b.children, j, ch, after))
            &&& leaf_seq(ns1, b.children[j], ch) == leaf_seq(ns0, b.children[j], ch)
        },
    ensures
        ({
            let b2 = body_insert(b, i, sep, rn);
            forall|t: int| 0 <= t < b2.children.len() ==> #[trigger] wf_node(ns1, b2.children[t], ch,
                child_lo(b2.keys, t, lo), child_hi(b2.keys, t, hi), child_after(ns1, b2.children, t, ch, after))
        }),
{
    let cs = b.children;
    let ks = b.keys;
    let b2 = body_insert(b, i, sep, rn);
    let cs2 = b2.children;
    let ks2 = b2.keys;
    assert forall|t: int| 0 <= t < cs2.len() implies #[trigger] wf_node(ns1, cs2[t], ch,
        child_lo(ks2, t, lo), child_hi(ks2, t, hi), child_after(ns1, cs2, t, ch, after)) by {
        if t < i {
            assert(cs2[t] == cs[t]);
            assert(child_lo(ks2, t, lo) == child_lo(ks, t, lo));
            assert(child_hi(ks2, t, hi) == child_hi(ks, t, hi));
            assert(cs2[t + 1] == cs[t + 1]);
            assert(child_after(ns1, cs2, t, ch, after) == child_after(ns0, cs, t, ch, after));
        } else if t == i {
            assert(cs2[t] == cs[i]);
            assert(child_lo(ks2, t, lo) == child_lo(ks, i, lo));
            assert(cs2[t + 1] == rn);
        } else if t == i + 1 {
            assert(cs2[t] == rn);
            assert(child_hi(ks2, t, hi) == child_hi(ks, i, hi));
            if i + 1 < cs.len() {
                assert(cs2[t + 1] == cs[i + 1]);
            }
            assert(child_after(ns1, cs2, t, ch, after) == child_after(ns0, cs, i, ch, after));
        } else {
            assert(cs2[t] == cs[t - 1]);
            assert(child_lo(ks2, t, lo) == child_lo(ks, t - 1, lo));
            assert(child_hi(ks2, t, hi) == child_hi(ks, t - 1, hi));
            if t + 1 < cs2.len() {
                assert(cs2[t + 1] == cs[t]);
            }
            assert(child_after(ns1, cs2, t, ch, after) == child_after(ns0, cs, t - 1, ch, after));
        }
    }
}

/// The subtrees of the body with the split child's halves are disjoint.
#[verifier::spinoff_prover]
proof fn lemma_insert_child_disjoint<K: TreeKey, V>(
    ns0: NodeViews<K, V>,
    ns1: NodeViews<K, V>,
    b: BranchView<K, V>,
    ch: nat,
    lo: Option<int>,
    hi: Option<int>,
    after: NodeId,
    i: int,
    sep: K,
    rn: NodeRef<K, V>,
)
    requires
        wf_branch_body(ns0, b, ch, lo, hi, after),
        0 <= i < b.children.len(),
        split_child_ok(ns0, ns1, b, ch, lo, hi, after, i, sep, rn),
        forall|j: int| 0 <= j < b.children.len() && j != i ==> {
            &&& content(ns1, #[trigger] b.children[j], ch) == content(ns0, b.children[j], ch)
            &&& forall|r: NodeRef<K, V>| #[trigger] in_tree(ns1, b.children[j], ch, r) == in_tree(ns0, b.children[j], ch, r)
        },
        forall|j: int, r: NodeRef<K, V>| 0 <= j < b.children.len() && #[trigger] in_tree(ns0, b.children[j], ch, r) ==> ns0.has(r),
    ensures
        children_disjoint(ns1, body_insert(b, i, sep, rn).children, ch),
{
    let cs = b.children;
    let cs2 = body_insert(b, i, sep, rn).children;
    // the subtrees stay disjoint
    assert forall|p: int, q: int, r: NodeRef<K, V>|
        0 <= p < q < cs2.len() && #[trigger] in_tree(ns1, cs2[p], ch, r) implies !#[trigger] in_tree(ns1, cs2[q], ch, r) by {
        if in_tree(ns1, cs2[q], ch, r) {
            if p == i && q == i + 1 {
            } else if p == i || p == i + 1 {
                let qo = if q < i { q } else { q - 1 };
                assert(cs2[q] == cs[qo]);
                assert(in_tree(ns0, cs[qo], ch, r));
                assert(ns0.has(r));
                assert(in_tree(ns0, cs[i], ch, r));
            } else if q == i || q == i + 1 {
                let po = if p < i { p } else { p - 1 };
                assert(cs2[p] == cs[po]);
                assert(in_tree(ns0, cs[po], ch, r));
                assert(ns0.has(r));
                assert(in_tree(ns0, cs[i], ch, r));
            } else {
                let po = if p < i { p } else { p - 1 };
                let qo = if q < i { q } else { q - 1 };
                assert(cs2[p] == cs[po]);
                assert(cs2[q] == cs[qo]);
                assert(in_tree(ns0, cs[po], ch, r));
                assert(in_tree(ns0, cs[qo], ch, r));
            }
        }
    }
}

/// The contents of the children of the body with the split child's halves.
#[verifier::spinoff_prover]
proof fn lemma_insert_child_contents<K: TreeKey, V>(
    ns0: NodeViews<K, V>,
    ns1: NodeViews<K, V>,
    b: BranchView<K, V>,
    ch: nat,
    lo: Option<int>,
    hi: Option<int>,
    after: NodeId,
    i: int,
    sep: K,
    rn: NodeRef<K, V>,
)
    requires
        0 <= i < b.children.len(),
        forall|j: int| 0 <= j < b.children.len() && j != i ==> {
            &&& content(ns1, #[trigger] b.children[j], ch) == content(ns0, b.children[j], ch)
            &&& forall|r: NodeRef<K, V>| #[trigger] in_tree(ns1, b.children[j], ch, r) == in_tree(ns0, b.children[j], ch, r)
        },
    ensures
        children_contents(ns1, body_insert(b, i, sep, rn).children, ch) == children_contents(
            ns0,
            b.children,
            ch,
        ).subrange(0, i) + seq![content(ns1, b.children[i], ch), content(ns1, rn, ch)]
            + children_contents(ns0, b.children, ch).subrange(i + 1, b.children.len() as int),
{
    let cs = b.children;
    let cs2 = body_insert(b, i, sep, rn).children;
    // contents
    lemma_children_contents(ns0, cs, ch);
    lemma_children_contents(ns1, cs2, ch);
    let parts0 = children_contents(ns0, cs, ch);
    let e = parts0.subrange(0, i) + seq![content(ns1, cs[i], ch), content(ns1, rn, ch)]
        + parts0.subrange(i + 1, cs.len() as int);
    assert forall|t: int| 0 <= t < cs2.len() implies #[trigger] children_contents(ns1, cs2, ch)[t] == e[t] by {
        if t < i {
            assert(cs2[t] == cs[t]);
        } else if t == i {
            assert(cs2[t] == cs[i]);
        } else if t == i + 1 {
            assert(cs2[t] == rn);
        } else {
            assert(cs2[t] == cs[t - 1]);
        }
    }
    assert(children_contents(ns1, cs2, ch) =~= e);
}

/// When child `i` of a well-formed body has split into itself and `rn`
/// around `sep`, inserting `sep` and `rn` after it gives a well-formed body
/// whose children's contents are the old ones with child `i`'s replaced by
/// the two halves.
#[verifier::spinoff_prover]
pub proof fn lemma_body_insert_child<K: TreeKey, V>(
    ns0: NodeViews<K, V>,
    ns1: NodeViews<K, V>,
    b: BranchView<K, V>,
    ch: nat,
    lo: Option<int>,
    hi: Option<int>,
    after: NodeId,
    i: int,
    sep: K,
    rn: NodeRef<K, V>,
)
    requires
        wf_branch_body(ns0, b, ch, lo, hi, after),
        0 <= i < b.children.len(),
        forall|r: NodeRef<K, V>|
            in_children(ns0, b.children, ch, r) && !in_tree(ns0, b.children[i], ch, r)
                ==> #[trigger] ns0.same_node(ns1, r),
        split_child_ok(ns0, ns1, b, ch, lo, hi, after, i, sep, rn),
    ensures
        wf_branch_body(ns1, body_insert(b, i, sep, rn), ch, lo, hi, after),
        children_contents(ns1, body_insert(b, i, sep, rn).children, ch) == children_contents(
            ns0,
            b.children,
            ch,
        ).subrange(0, i) + seq![content(ns1, b.children[i], ch), content(ns1, rn, ch)]
            + children_contents(ns0, b.children, ch).subrange(i + 1, b.children.len() as int),
        children_leaf_seq(ns1, body_insert(b, i, sep, rn).children, ch).len() > 0,
        children_leaf_seq(ns1, body_insert(b, i, sep, rn).children, ch)[0] == children_leaf_seq(
            ns0,
            b.children,
            ch,
        )[0],
        forall|r: NodeRef<K, V>|
            #[trigger] in_children(ns1, body_insert(b, i, sep, rn).children, ch, r) ==> in_children(
                ns0,
                b.children,
                ch,
                r,
            ) || !ns0.has(r),
{
    let cs = b.children;
    let ks = b.keys;
    let b2 = body_insert(b, i, sep, rn);
    let cs2 = b2.children;
    let ks2 = b2.keys;
    lemma_frame_other_children(ns0, ns1, b, ch, lo, hi, after, i);
    lemma_insert_child_nodes(ns0, ns1, b, ch, lo, hi, after, i, sep, rn);
    lemma_insert_key(ks, i, sep, lo, hi);
    lemma_insert_child_disjoint(ns0, ns1, b, ch, lo, hi, after, i, sep, rn);
    assert(wf_branch_body(ns1, b2, ch, lo, hi, after));
    lemma_insert_child_contents(ns0, ns1, b, ch, lo, hi, after, i, sep, rn);
    // first leaf
    assert(wf_node(ns1, cs2[0], ch, child_lo(ks2, 0, lo), child_hi(ks2, 0, hi), child_after(ns1, cs2, 0, ch, after)));
    lemma_wf_basic(ns1, cs2[0], ch, child_lo(ks2, 0, lo), child_hi(ks2, 0, hi), child_after(ns1, cs2, 0, ch, after));
    assert(wf_node(ns0, cs[0], ch, child_lo(ks, 0, lo), child_hi(ks, 0, hi), child_after(ns0, cs, 0, ch, after)));
    lemma_wf_basic(ns0, cs[0], ch, child_lo(ks, 0, lo), child_hi(ks, 0, hi), child_after(ns0, cs, 0, ch, after));
    lemma_first_leaf(ns1, cs2, ch);
    lemma_first_leaf(ns0, cs, ch);
    assert(cs2[0] == cs[0]);
    // no old node from elsewhere joins
    assert forall|r: NodeRef<K, V>| #[trigger] in_children(ns1, cs2, ch, r) implies in_children(ns0, cs, ch, r) || !ns0.has(r) by {
        let t = choose|t: int| 0 <= t < cs2.len() && #[trigger] in_tree(ns1, cs2[t], ch, r);
        if t < i {
            assert(cs2[t] == cs[t]);
            assert(in_tree(ns0, cs[t], ch, r));
        } else if t == i || t == i + 1 {
            if ns0.has(r) {
                assert(in_tree(ns0, cs[i], ch, r));
            }
        } else {
            assert(cs2[t] == cs[t - 1]);
            assert(in_tree(ns0, cs[t - 1], ch, r));
        }
    }
}

/// Around the child that covers `k`, the entries of a well-formed branch
/// are a part below `k`, that child's entries, and a part above `k`.
#[verifier::spinoff_prover]
pub proof fn lemma_parts_around<K: TreeKey, V>(
    ns: NodeViews<K, V>,
    n: NodeRef<K, V>,
    h: nat,
    lo: Option<int>,
    hi: Option<int>,
    after: NodeId,
    k: K,
)
    requires
        wf_node(ns, n, h, lo, hi, after),
        n is Branch,
        rank_in(k.rank(), lo, hi),
    ensures
        ({
            let b = ns.branches[n.spec_id()];
            let ch = (h - 1) as nat;
            let i = child_pos(b.keys, k);
            let parts = children_contents(ns, b.children, ch);
            &&& 0 <= i < b.children.len()
            &&& parts.len() == b.children.len()
            &&& parts[i] == content(ns, b.children[i], ch)
            &&& content(ns, n, h) == parts.subrange(0, i).flatten() + parts[i] + parts.subrange(
                i + 1,
                parts.len() as int,
            ).flatten()
            &&& all_below(parts.subrange(0, i).flatten(), k.rank())
            &&& all_above(parts.subrange(i + 1, parts.len() as int).flatten(), k.rank())
            &&& entries_sorted(parts[i])
        }),
{
    let b = ns.branches[n.spec_id()];
    let ch = (h - 1) as nat;
    let cs = b.children;
    let ks = b.keys;
    crate::tree_spec::lemma_locate(ns, n, h, lo, hi, after, k);
    crate::tree_spec::lemma_wf_branch_unfold(ns, n, h, lo, hi, after);
    lemma_child_pos_exists(ks, k);
    let i = child_pos(ks, k);
    lemma_children_contents(ns, cs, ch);
    let parts = children_contents(ns, cs, ch);
    crate::flatten::lemma_flatten_split(parts, i);
    assert forall|j: int| 0 <= j < cs.len() implies crate::tree_spec::entries_in(#[trigger] parts[j], child_lo(ks, j, lo), child_hi(ks, j, hi))
        && entries_sorted(parts[j]) by {
        assert(wf_node(ns, cs[j], ch, child_lo(ks, j, lo), child_hi(ks, j, hi), child_after(ns, cs, j, ch, after)));
        lemma_wf_basic(ns, cs[j], ch, child_lo(ks, j, lo), child_hi(ks, j, hi), child_after(ns, cs, j, ch, after));
    }
    let pre = parts.subrange(0, i);
    let suf = parts.subrange(i + 1, parts.len() as int);
    assert forall|m: int| 0 <= m < pre.flatten().len() implies #[trigger] pre.flatten()[m].0.rank() < k.rank() by {
        let e = pre.flatten()[m];
        assert(pre.flatten().contains(e));
        lemma_flatten_contains(pre, e);
        let j = choose|j: int| 0 <= j < pre.len() && #[trigger] pre[j].contains(e);
        let q = choose|q: int| 0 <= q < pre[j].len() && pre[j][q] == e;
        assert(pre[j] == parts[j]);
        assert(rank_in(parts[j][q].0.rank(), child_lo(ks, j, lo), child_hi(ks, j, hi)));
        crate::tree_spec::lemma_sorted_le(ks, j, i - 1);
    }
    assert forall|m: int| 0 <= m < suf.flatten().len() implies k.rank() < #[trigger] suf.flatten()[m].0.rank() by {
        let e = suf.flatten()[m];
        assert(suf.flatten().contains(e));
        lemma_flatten_contains(suf, e);
        let j = choose|j: int| 0 <= j < suf.len() && #[trigger] suf[j].contains(e);
        let q = choose|q: int| 0 <= q < suf[j].len() && suf[j][q] == e;
        assert(suf[j] == parts[j + i + 1]);
        assert(rank_in(parts[j + i + 1][q].0.rank(), child_lo(ks, j + i + 1, lo), child_hi(ks, j + i + 1, hi)));
        crate::tree_spec::lemma_sorted_le(ks, i, j + i);
    }
}

/// The nodes under the children of a well-formed body exist.
pub proof fn lemma_body_has<K: TreeKey, V>(
    ns: NodeViews<K, V>,
    b: BranchView<K, V>,
    ch: nat,
    lo: Option<int>,
    hi: Option<int>,
    after: NodeId,
)
    requires
        wf_branch_body(ns, b, ch, lo, hi, after),
    ensures
        forall|x: NodeRef<K, V>| #[trigger] in_children(ns, b.children, ch, x) ==> ns.has(x),
{
    assert forall|x: NodeRef<K, V>| #[trigger] in_children(ns, b.children, ch, x) implies ns.has(x) by {
        let j = choose|j: int| 0 <= j < b.children.len() && #[trigger] in_tree(ns, b.children[j], ch, x);
        assert(wf_node(ns, b.children[j], ch, child_lo(b.keys, j, lo), child_hi(b.keys, j, hi),
            child_after(ns, b.children, j, ch, after)));
        lemma_wf_basic(ns, b.children[j], ch, child_lo(b.keys, j, lo), child_hi(b.keys, j, hi),
            child_after(ns, b.children, j, ch, after));
    }
}

/// When child `i` of a body keeps every node of its old subtree and every
/// new node, and the other children are untouched, the children together
/// keep them too.
pub proof fn lemma_children_kept<K: TreeKey, V>(
    ns0: NodeViews<K, V>,
    ns1: NodeViews<K, V>,
    b: BranchView<K, V>,
    ch: nat,
    lo: Option<int>,
    hi: Option<int>,
    after: NodeId,
    i: int,
)
    requires
        wf_branch_body(ns0, b, ch, lo, hi, after),
        0 <= i < b.children.len(),
        forall|r: NodeRef<K, V>|
            in_children(ns0, b.children, ch, r) && !in_tree(ns0, b.children[i], ch, r)
                ==> #[trigger] ns0.same_node(ns1, r),
        forall|r: NodeRef<K, V>|
            ns1.has(r) && (in_tree(ns0, b.children[i], ch, r) || !ns0.has(r)) ==> #[trigger] in_tree(
                ns1,
                b.children[i],
                ch,
                r,
            ),
    ensures
        forall|r: NodeRef<K, V>|
            ns1.has(r) && (in_children(ns0, b.children, ch, r) || !ns0.has(r)) ==> #[trigger] in_children(
                ns1,
                b.children,
                ch,
                r,
            ),
{
    let cs = b.children;
    lemma_frame_other_children(ns0, ns1, b, ch, lo, hi, after, i);
    assert forall|r: NodeRef<K, V>| ns1.has(r) && (in_children(ns0, cs, ch, r) || !ns0.has(r)) implies #[trigger] in_children(
        ns1,
        cs,
        ch,
        r,
    ) by {
        if in_children(ns0, cs, ch, r) {
            let t = choose|t: int| 0 <= t < cs.len() && #[trigger] in_tree(ns0, cs[t], ch, r);
            if t == i {
                assert(in_tree(ns1, cs[i], ch, r));
            } else {
                assert(in_tree(ns1, cs[t], ch, r));
            }
        } else {
            assert(in_tree(ns1, cs[i], ch, r));
        }
    }
}

/// When child `i` split into itself and `rn`, which between them keep
/// every node of its old subtree and every new node, and the other
/// children are untouched, the body with `rn` inserted keeps them all.
pub proof fn lemma_children_kept_insert<K: TreeKey, V>(
    ns0: NodeViews<K, V>,
    ns1: NodeViews<K, V>,
    b: BranchView<K, V>,
    ch: nat,
    lo: Option<int>,
    hi: Option<int>,
    after: NodeId,
    i: int,
    sep: K,
    rn: NodeRef<K, V>,
)
    requires
        wf_branch_body(ns0, b, ch, lo, hi, after),
        0 <= i < b.children.len(),
        forall|r: NodeRef<K, V>|
            in_children(ns0, b.children, ch, r) && !in_tree(ns0, b.children[i], ch, r)
                ==> #[trigger] ns0.same_node(ns1, r),
        forall|r: NodeRef<K, V>|
            #![trigger in_tree(ns1, b.children[i], ch, r)]
            #![trigger in_tree(ns1, rn, ch, r)]
            ns1.has(r) && (in_tree(ns0, b.children[i], ch, r) || !ns0.has(r)) ==> in_tree(ns1, b.children[i], ch, r)
                || in_tree(ns1, rn, ch, r),
    ensures
        forall|r: NodeRef<K, V>|
            ns1.has(r) && (in_children(ns0, b.children, ch, r) || !ns0.has(r)) ==> #[trigger] in_children(
                ns1,
                body_insert(b, i, sep, rn).children,
                ch,
                r,
            ),
{
    let cs = b.children;
    let cs2 = body_insert(b, i, sep, rn).children;
    lemma_frame_other_children(ns0, ns1, b, ch, lo, hi, after, i);
    assert(cs2.len() == cs.len() + 1);
    assert(cs2[i] == cs[i]);
    assert(cs2[i + 1] == rn);
    assert forall|r: NodeRef<K, V>| ns1.has(r) && (in_children(ns0, cs, ch, r) || !ns0.has(r)) implies #[trigger] in_children(
        ns1,
        cs2,
        ch,
        r,
    ) by {
        let t: int = if in_children(ns0, cs, ch, r) {
            choose|t: int| 0 <= t < cs.len() && #[trigger] in_tree(ns0, cs[t], ch, r)
        } else {
            i
        };
        if t == i {
            if in_tree(ns1, cs[i], ch, r) {
                assert(in_tree(ns1, cs2[i], ch, r));
            } else {
                assert(in_tree(ns1, cs2[i + 1], ch, r));
            }
        } else if t < i {
            assert(cs2[t] == cs[t]);
            assert(in_tree(ns1, cs[t], ch, r));
            assert(in_tree(ns1, cs2[t], ch, r));
        } else {
            assert(cs2[t + 1] == cs[t]);
            assert(in_tree(ns1, cs[t], ch, r));
            assert(in_tree(ns1, cs2[t + 1], ch, r));
        }
    }
}

} // verus!
