//! How a branch body stays well-formed when two neighbouring children
//! trade entries or are merged into one, as removal rebalances the tree.
use crate::body_lemmas::{lemma_body_has, lemma_frame_other_children};
use crate::flatten::lemma_flatten_split;
use crate::sorted::keys_sorted;
use crate::tree_spec::{
    child_after, child_hi, child_lo, children_contents, children_disjoint, children_leaf_seq,
    content, in_children, in_tree, keys_in, lemma_children_contents, lemma_first_leaf,
    lemma_frame, lemma_sorted_le, lemma_wf_basic, leaf_seq, rank_in, wf_branch_body, wf_node,
    BranchView, NodeViews,
};
use crate::types::{NodeId, NodeRef, TreeKey};
use vstd::prelude::*;

verus! {

/// Flattening around two neighbouring parts.
pub proof fn lemma_flatten_pair<A>(ss: Seq<Seq<A>>, j: int)
    requires
        0 <= j,
        j + 1 < ss.len(),
    ensures
        ss.flatten() == ss.subrange(0, j).flatten() + ss[j] + ss[j + 1] + ss.subrange(j + 2, ss.len() as int).flatten(),
{
    lemma_flatten_split(ss, j);
    let rest = ss.subrange(j + 1, ss.len() as int);
    lemma_flatten_split(rest, 0);
    assert(rest.subrange(0, 0) =~= Seq::<Seq<A>>::empty());
    assert(rest.subrange(1, rest.len() as int) =~= ss.subrange(j + 2, ss.len() as int));
    assert(rest[0] == ss[j + 1]);
}

/// What two neighbouring children `j` and `j + 1` must satisfy in the new
/// views after trading entries around a new separator `s`.
pub open spec fn pair_ok<K: TreeKey, V>(
    ns0: NodeViews<K, V>,
    ns1: NodeViews<K, V>,
    b: BranchView<K, V>,
    ch: nat,
    lo: Option<int>,
    hi: Option<int>,
    after: NodeId,
    j: int,
    s: K,
) -> bool {
    let cs = b.children;
    let ks = b.keys;
    &&& wf_node(ns1, cs[j], ch, child_lo(ks, j, lo), Some(s.rank()), leaf_seq(ns1, cs[j + 1], ch)[0])
    &&& wf_node(ns1, cs[j + 1], ch, Some(s.rank()), child_hi(ks, j + 1, hi), child_after(ns0, cs, j + 1, ch, after))
    &&& (child_lo(ks, j, lo) matches Some(x) ==> x < s.rank())
    &&& (child_hi(ks, j + 1, hi) matches Some(y) ==> s.rank() < y)
    &&& leaf_seq(ns1, cs[j], ch)[0] == leaf_seq(ns0, cs[j], ch)[0]
    &&& forall|x: NodeRef<K, V>| #[trigger] in_tree(ns1, cs[j], ch, x) ==> in_tree(ns0, cs[j], ch, x) || in_tree(ns0, cs[j + 1], ch, x)
    &&& forall|x: NodeRef<K, V>| #[trigger] in_tree(ns1, cs[j + 1], ch, x) ==> in_tree(ns0, cs[j], ch, x) || in_tree(ns0, cs[j + 1], ch, x)
    &&& forall|x: NodeRef<K, V>| #[trigger] in_tree(ns1, cs[j], ch, x) ==> !in_tree(ns1, cs[j + 1], ch, x)
    &&& content(ns1, cs[j], ch) + content(ns1, cs[j + 1], ch) == content(ns0, cs[j], ch) + content(ns0, cs[j + 1], ch)
    &&& forall|x: NodeRef<K, V>|
        #![trigger in_tree(ns1, cs[j], ch, x)]
        #![trigger in_tree(ns1, cs[j + 1], ch, x)]
        ns1.has(x) && (in_tree(ns0, cs[j], ch, x) || in_tree(ns0, cs[j + 1], ch, x)) ==> in_tree(ns1, cs[j], ch, x)
            || in_tree(ns1, cs[j + 1], ch, x)
}

/// Nodes outside two neighbouring children's subtrees are unchanged.
pub open spec fn pair_frame<K: TreeKey, V>(
    ns0: NodeViews<K, V>,
    ns1: NodeViews<K, V>,
    b: BranchView<K, V>,
    ch: nat,
    j: int,
) -> bool {
    forall|x: NodeRef<K, V>|
        in_children(ns0, b.children, ch, x) && !in_tree(ns0, b.children[j], ch, x) && !in_tree(ns0, b.children[j + 1], ch, x)
            ==> #[trigger] ns0.same_node(ns1, x)
}

/// The other children of a body keep their place when two neighbours change.
proof fn lemma_frame_pair_others<K: TreeKey, V>(
    ns0: NodeViews<K, V>,
    ns1: NodeViews<K, V>,
    b: BranchView<K, V>,
    ch: nat,
    lo: Option<int>,
    hi: Option<int>,
    after: NodeId,
    j: int,
)
    requires
        wf_branch_body(ns0, b, ch, lo, hi, after),
        0 <= j,
        j + 1 < b.children.len(),
        pair_frame(ns0, ns1, b, ch, j),
    ensures
        forall|t: int| 0 <= t < b.children.len() && t != j && t != j + 1 ==> {
            &&& wf_node(ns1, #[trigger] b.children[t], ch, child_lo(b.keys, t, lo), child_hi(b.keys, t, hi),
                child_after(ns0, b.children, t, ch, after))
            &&& content(ns1, b.children[t], ch) == content(ns0, b.children[t], ch)
            &&& leaf_seq(ns1, b.children[t], ch) == leaf_seq(ns0, b.children[t], ch)
            &&& forall|r: NodeRef<K, V>| #[trigger] in_tree(ns1, b.children[t], ch, r) == in_tree(ns0, b.children[t], ch, r)
        },
        forall|t: int, r: NodeRef<K, V>| 0 <= t < b.children.len() && #[trigger] in_tree(ns0, b.children[t], ch, r) ==> ns0.has(r),
{
    let cs = b.children;
    let ks = b.keys;
    assert forall|t: int| 0 <= t < cs.len() && t != j && t != j + 1 implies {
        &&& wf_node(ns1, #[trigger] cs[t], ch, child_lo(ks, t, lo), child_hi(ks, t, hi),
            child_after(ns0, cs, t, ch, after))
        &&& content(ns1, cs[t], ch) == content(ns0, cs[t], ch)
        &&& leaf_seq(ns1, cs[t], ch) == leaf_seq(ns0, cs[t], ch)
        &&& forall|r: NodeRef<K, V>| #[trigger] in_tree(ns1, cs[t], ch, r) == in_tree(ns0, cs[t], ch, r)
    } by {
        assert(wf_node(ns0, cs[t], ch, child_lo(ks, t, lo), child_hi(ks, t, hi), child_after(ns0, cs, t, ch, after)));
        assert forall|r: NodeRef<K, V>| #[trigger] in_tree(ns0, cs[t], ch, r) implies ns0.same_node(ns1, r) by {
            assert(in_children(ns0, cs, ch, r));
            assert(!in_tree(ns0, cs[j], ch, r));
            assert(!in_tree(ns0, cs[j + 1], ch, r));
        }
        lemma_frame(ns0, ns1, cs[t], ch, child_lo(ks, t, lo), child_hi(ks, t, hi), child_after(ns0, cs, t, ch, after));
    }
    assert forall|t: int, r: NodeRef<K, V>| 0 <= t < cs.len() && #[trigger] in_tree(ns0, cs[t], ch, r) implies ns0.has(r) by {
        lemma_wf_basic(ns0, cs[t], ch, child_lo(ks, t, lo), child_hi(ks, t, hi), child_after(ns0, cs, t, ch, after));
    }
}

/// Two neighbouring children that traded entries around a new separator
/// leave the body well-formed with the same entries.
#[verifier::spinoff_prover]
pub proof fn lemma_body_pair<K: TreeKey, V>(
    ns0: NodeViews<K, V>,
    ns1: NodeViews<K, V>,
    b: BranchView<K, V>,
    ch: nat,
    lo: Option<int>,
    hi: Option<int>,
    after: NodeId,
    j: int,
    s: K,
)
    requires
        wf_branch_body(ns0, b, ch, lo, hi, after),
        0 <= j,
        j + 1 < b.children.len(),
        pair_frame(ns0, ns1, b, ch, j),
        pair_ok(ns0, ns1, b, ch, lo, hi, after, j, s),
    ensures
        ({
            let b1 = BranchView { keys: b.keys.update(j, s), children: b.children };
            &&& wf_branch_body(ns1, b1, ch, lo, hi, after)
            &&& children_contents(ns1, b.children, ch).flatten() == children_contents(ns0, b.children, ch).flatten()
            &&& children_leaf_seq(ns1, b.children, ch).len() > 0
            &&& children_leaf_seq(ns1, b.children, ch)[0] == children_leaf_seq(ns0, b.children, ch)[0]
            &&& forall|x: NodeRef<K, V>| #[trigger] in_children(ns1, b.children, ch, x) ==> in_children(ns0, b.children, ch, x)
            &&& forall|x: NodeRef<K, V>| ns1.has(x) && in_children(ns0, b.children, ch, x) ==> #[trigger] in_children(ns1, b.children, ch, x)
        }),
{
    let cs = b.children;
    let ks = b.keys;
    let ks1 = ks.update(j, s);
    let b1 = BranchView { keys: ks1, children: cs };
    lemma_frame_pair_others(ns0, ns1, b, ch, lo, hi, after, j);
    assert forall|x: NodeRef<K, V>| ns1.has(x) && in_children(ns0, cs, ch, x) implies #[trigger] in_children(ns1, cs, ch, x) by {
        let t = choose|t: int| 0 <= t < cs.len() && #[trigger] in_tree(ns0, cs[t], ch, x);
        if t == j || t == j + 1 {
            if in_tree(ns1, cs[j], ch, x) {
            } else {
                assert(in_tree(ns1, cs[j + 1], ch, x));
            }
        } else {
            assert(in_tree(ns1, cs[t], ch, x));
        }
    }
    // bounds of each child
    assert forall|t: int| 0 <= t < cs.len() implies #[trigger] wf_node(ns1, cs[t], ch, child_lo(ks1, t, lo),
        child_hi(ks1, t, hi), child_after(ns1, cs, t, ch, after)) by {
        if t == j {
            assert(child_lo(ks1, t, lo) == child_lo(ks, t, lo));
        } else if t == j + 1 {
            assert(child_hi(ks1, t, hi) == child_hi(ks, t, hi));
            if t + 1 < cs.len() {
                assert(leaf_seq(ns1, cs[t + 1], ch) == leaf_seq(ns0, cs[t + 1], ch));
            }
            assert(child_after(ns1, cs, t, ch, after) == child_after(ns0, cs, t, ch, after));
        } else {
            assert(child_lo(ks1, t, lo) == child_lo(ks, t, lo));
            assert(child_hi(ks1, t, hi) == child_hi(ks, t, hi));
            if t + 1 < cs.len() && t + 1 != j {
                assert(leaf_seq(ns1, cs[t + 1], ch) == leaf_seq(ns0, cs[t + 1], ch));
            }
            assert(child_after(ns1, cs, t, ch, after) == child_after(ns0, cs, t, ch, after));
        }
    }
    // keys
    if j > 0 {
        assert(child_lo(ks, j, lo) == Some(ks[j - 1].rank()));
    }
    if j + 1 < ks.len() {
        assert(child_hi(ks, j + 1, hi) == Some(ks[j + 1].rank()));
    }
    assert forall|p: int, q: int| 0 <= p < q < ks1.len() implies #[trigger] ks1[p].rank() < #[trigger] ks1[q].rank() by {
        if p == j {
            lemma_sorted_le(ks, j + 1, q);
        } else if q == j {
            lemma_sorted_le(ks, p, j - 1);
        } else {
            assert(ks[p].rank() < ks[q].rank());
        }
    }
    assert(rank_in(ks[j].rank(), lo, hi));
    assert(rank_in(s.rank(), lo, hi)) by {
        if j > 0 {
            assert(rank_in(ks[j - 1].rank(), lo, hi));
        }
        if j + 1 < ks.len() {
            assert(rank_in(ks[j + 1].rank(), lo, hi));
        }
    }
    assert forall|p: int| 0 <= p < ks1.len() implies rank_in(#[trigger] ks1[p].rank(), lo, hi) by {
        if p != j {
            assert(ks1[p] == ks[p]);
        }
    }
    // disjointness
    assert forall|p: int, q: int, r: NodeRef<K, V>| 0 <= p < q < cs.len() && #[trigger] in_tree(ns1, cs[p], ch, r)
        implies !#[trigger] in_tree(ns1, cs[q], ch, r) by {
        if in_tree(ns1, cs[q], ch, r) {
            if p == j && q == j + 1 {
            } else if p == j || p == j + 1 {
                assert(in_tree(ns0, cs[q], ch, r));
                assert(ns0.has(r));
                assert(in_tree(ns0, cs[j], ch, r) || in_tree(ns0, cs[j + 1], ch, r));
            } else if q == j || q == j + 1 {
                assert(in_tree(ns0, cs[p], ch, r));
                assert(in_tree(ns0, cs[j], ch, r) || in_tree(ns0, cs[j + 1], ch, r));
            } else {
                assert(in_tree(ns0, cs[p], ch, r));
                assert(in_tree(ns0, cs[q], ch, r));
            }
        }
    }
    assert(children_disjoint(ns1, cs, ch));
    assert(keys_sorted(ks1));
    assert(wf_branch_body(ns1, b1, ch, lo, hi, after));
    // contents
    lemma_children_contents(ns0, cs, ch);
    lemma_children_contents(ns1, cs, ch);
    let p0 = children_contents(ns0, cs, ch);
    let p1 = children_contents(ns1, cs, ch);
    lemma_flatten_pair(p0, j);
    lemma_flatten_pair(p1, j);
    assert(p1.subrange(0, j) =~= p0.subrange(0, j));
    assert(p1.subrange(j + 2, p1.len() as int) =~= p0.subrange(j + 2, p0.len() as int));
    let a = p0.subrange(0, j).flatten();
    let c = p0.subrange(j + 2, p0.len() as int).flatten();
    assert(p1[j] + p1[j + 1] == p0[j] + p0[j + 1]);
    assert(a + p1[j] + p1[j + 1] + c =~= a + (p1[j] + p1[j + 1]) + c);
    assert(a + p0[j] + p0[j + 1] + c =~= a + (p0[j] + p0[j + 1]) + c);
    assert(p1.flatten() == p0.flatten());
    // first leaf
    assert(wf_node(ns1, cs[0], ch, child_lo(ks1, 0, lo), child_hi(ks1, 0, hi), child_after(ns1, cs, 0, ch, after)));
    lemma_wf_basic(ns1, cs[0], ch, child_lo(ks1, 0, lo), child_hi(ks1, 0, hi), child_after(ns1, cs, 0, ch, after));
    assert(wf_node(ns0, cs[0], ch, child_lo(ks, 0, lo), child_hi(ks, 0, hi), child_after(ns0, cs, 0, ch, after)));
    lemma_wf_basic(ns0, cs[0], ch, child_lo(ks, 0, lo), child_hi(ks, 0, hi), child_after(ns0, cs, 0, ch, after));
    lemma_first_leaf(ns1, cs, ch);
    lemma_first_leaf(ns0, cs, ch);
    if j != 0 {
        assert(leaf_seq(ns1, cs[0], ch) == leaf_seq(ns0, cs[0], ch));
    }
    assert forall|x: NodeRef<K, V>| #[trigger] in_children(ns1, cs, ch, x) implies in_children(ns0, cs, ch, x) by {
        let t = choose|t: int| 0 <= t < cs.len() && #[trigger] in_tree(ns1, cs[t], ch, x);
        if t == j || t == j + 1 {
            if in_tree(ns0, cs[j], ch, x) {
            } else {
                assert(in_tree(ns0, cs[j + 1], ch, x));
            }
        } else {
            assert(in_tree(ns0, cs[t], ch, x));
        }
    }
}

/// What child `j` must satisfy in the new views after absorbing child
/// `j + 1`.
pub open spec fn merge_ok<K: TreeKey, V>(
    ns0: NodeViews<K, V>,
    ns1: NodeViews<K, V>,
    b: BranchView<K, V>,
    ch: nat,
    lo: Option<int>,
    hi: Option<int>,
    after: NodeId,
    j: int,
) -> bool {
    let cs = b.children;
    let ks = b.keys;
    &&& wf_node(ns1, cs[j], ch, child_lo(ks, j, lo), child_hi(ks, j + 1, hi), child_after(ns0, cs, j + 1, ch, after))
    &&& leaf_seq(ns1, cs[j], ch)[0] == leaf_seq(ns0, cs[j], ch)[0]
    &&& forall|x: NodeRef<K, V>| #[trigger] in_tree(ns1, cs[j], ch, x) ==> in_tree(ns0, cs[j], ch, x) || in_tree(ns0, cs[j + 1], ch, x)
    &&& content(ns1, cs[j], ch) == content(ns0, cs[j], ch) + content(ns0, cs[j + 1], ch)
    &&& forall|x: NodeRef<K, V>| ns1.has(x) && (in_tree(ns0, cs[j], ch, x) || in_tree(ns0, cs[j + 1], ch, x))
        ==> #[trigger] in_tree(ns1, cs[j], ch, x)
}

/// Every node of the old children still in the views lies under a child of
/// the merged body.
pub proof fn lemma_merge_kept<K: TreeKey, V>(
    ns0: NodeViews<K, V>,
    ns1: NodeViews<K, V>,
    b: BranchView<K, V>,
    ch: nat,
    lo: Option<int>,
    hi: Option<int>,
    after: NodeId,
    j: int,
)
    requires
        wf_branch_body(ns0, b, ch, lo, hi, after),
        0 <= j,
        j + 1 < b.children.len(),
        pair_frame(ns0, ns1, b, ch, j),
        merge_ok(ns0, ns1, b, ch, lo, hi, after, j),
    ensures
        forall|x: NodeRef<K, V>| ns1.has(x) && in_children(ns0, b.children, ch, x) ==> #[trigger] in_children(ns1, b.children.remove(j + 1), ch, x),
{
    let cs = b.children;
    let cs1 = cs.remove(j + 1);
    lemma_frame_pair_others(ns0, ns1, b, ch, lo, hi, after, j);
    assert forall|x: NodeRef<K, V>| ns1.has(x) && in_children(ns0, cs, ch, x) implies #[trigger] in_children(ns1, cs1, ch, x) by {
        let t = choose|t: int| 0 <= t < cs.len() && #[trigger] in_tree(ns0, cs[t], ch, x);
        if t == j || t == j + 1 {
            assert(in_tree(ns1, cs[j], ch, x));
            assert(cs1[j] == cs[j]);
            assert(in_tree(ns1, cs1[j], ch, x));
        } else if t < j {
            assert(cs1[t] == cs[t]);
            assert(in_tree(ns1, cs1[t], ch, x));
        } else {
            assert(cs1[t - 1] == cs[t]);
            assert(in_tree(ns1, cs1[t - 1], ch, x));
        }
    }
}

/// The children of the merged body are each well-formed in their place.
#[verifier::spinoff_prover]
#[verifier::rlimit(40)]
proof fn lemma_merge_children_wf<K: TreeKey, V>(
    ns0: NodeViews<K, V>,
    ns1: NodeViews<K, V>,
    b: BranchView<K, V>,
    ch: nat,
    lo: Option<int>,
    hi: Option<int>,
    after: NodeId,
    j: int,
)
    requires
        b.children.len() == b.keys.len() + 1,
        0 <= j,
        j + 1 < b.children.len(),
        merge_ok(ns0, ns1, b, ch, lo, hi, after, j),
        forall|t: int| 0 <= t < b.children.len() && t != j && t != j + 1 ==> {
            &&& wf_node(ns1, #[trigger] b.children[t], ch, child_lo(b.keys, t, lo), child_hi(b.keys, t, hi),
                child_after(ns0, b.children, t, ch, after))
            &&& leaf_seq(ns1, b.children[t], ch) == leaf_seq(ns0, b.children[t], ch)
        },
    ensures
        ({
            let ks1 = b.keys.remove(j);
            let cs1 = b.children.remove(j + 1);
            forall|t: int| 0 <= t < cs1.len() ==> #[trigger] wf_node(ns1, cs1[t], ch, child_lo(ks1, t, lo),
                child_hi(ks1, t, hi), child_after(ns1, cs1, t, ch, after))
        }),
{
    let cs = b.children;
    let ks = b.keys;
    let ks1 = ks.remove(j);
    let cs1 = cs.remove(j + 1);
    assert forall|t: int| 0 <= t < cs1.len() implies #[trigger] wf_node(ns1, cs1[t], ch, child_lo(ks1, t, lo),
        child_hi(ks1, t, hi), child_after(ns1, cs1, t, ch, after)) by {
        if t < j {
            assert(cs1[t] == cs[t]);
            assert(child_lo(ks1, t, lo) == child_lo(ks, t, lo));
            assert(child_hi(ks1, t, hi) == child_hi(ks, t, hi));
            assert(cs1[t + 1] == cs[t + 1]);
            if t + 1 != j {
                assert(leaf_seq(ns1, cs[t + 1], ch) == leaf_seq(ns0, cs[t + 1], ch));
            }
            assert(child_after(ns1, cs1, t, ch, after) == child_after(ns0, cs, t, ch, after));
        } else if t == j {
            assert(cs1[t] == cs[j]);
            assert(child_lo(ks1, t, lo) == child_lo(ks, j, lo));
            assert(child_hi(ks1, t, hi) == child_hi(ks, j + 1, hi));
            if t + 1 < cs1.len() {
                assert(cs1[t + 1] == cs[j + 2]);
                assert(leaf_seq(ns1, cs[j + 2], ch) == leaf_seq(ns0, cs[j + 2], ch));
            }
            assert(child_after(ns1, cs1, t, ch, after) == child_after(ns0, cs, j + 1, ch, after));
        } else {
            assert(cs1[t] == cs[t + 1]);
            assert(child_lo(ks1, t, lo) == child_lo(ks, t + 1, lo));
            assert(child_hi(ks1, t, hi) == child_hi(ks, t + 1, hi));
            if t + 1 < cs1.len() {
                assert(cs1[t + 1] == cs[t + 2]);
                assert(leaf_seq(ns1, cs[t + 2], ch) == leaf_seq(ns0, cs[t + 2], ch));
            }
            assert(child_after(ns1, cs1, t, ch, after) == child_after(ns0, cs, t + 1, ch, after));
        }
    }
}

/// The subtrees of the merged body are disjoint.
#[verifier::spinoff_prover]
proof fn lemma_merge_disjoint<K: TreeKey, V>(
    ns0: NodeViews<K, V>,
    ns1: NodeViews<K, V>,
    b: BranchView<K, V>,
    ch: nat,
    lo: Option<int>,
    hi: Option<int>,
    after: NodeId,
    j: int,
)
    requires
        wf_branch_body(ns0, b, ch, lo, hi, after),
        0 <= j,
        j + 1 < b.children.len(),
        merge_ok(ns0, ns1, b, ch, lo, hi, after, j),
        forall|t: int| 0 <= t < b.children.len() && t != j && t != j + 1 ==> {
            forall|r: NodeRef<K, V>| #[trigger] in_tree(ns1, #[trigger] b.children[t], ch, r) == in_tree(ns0, b.children[t], ch, r)
        },
        forall|t: int, r: NodeRef<K, V>| 0 <= t < b.children.len() && #[trigger] in_tree(ns0, b.children[t], ch, r) ==> ns0.has(r),
    ensures
        children_disjoint(ns1, b.children.remove(j + 1), ch),
        forall|x: NodeRef<K, V>| #[trigger] in_children(ns1, b.children.remove(j + 1), ch, x) ==> in_children(ns0, b.children, ch, x),
{
    let cs = b.children;
    let cs1 = cs.remove(j + 1);
    assert forall|p: int, q: int, r: NodeRef<K, V>| 0 <= p < q < cs1.len() && #[trigger] in_tree(ns1, cs1[p], ch, r)
        implies !#[trigger] in_tree(ns1, cs1[q], ch, r) by {
        let po = if p <= j { p } else { p + 1 };
        let qo = if q <= j { q } else { q + 1 };
        assert(cs1[p] == cs[po] && cs1[q] == cs[qo]);
        if in_tree(ns1, cs1[q], ch, r) {
            if po == j {
                assert(in_tree(ns0, cs[qo], ch, r));
                assert(ns0.has(r));
                assert(in_tree(ns0, cs[j], ch, r) || in_tree(ns0, cs[j + 1], ch, r));
            } else if qo == j {
                assert(in_tree(ns0, cs[po], ch, r));
                assert(in_tree(ns0, cs[j], ch, r) || in_tree(ns0, cs[j + 1], ch, r));
            } else {
                assert(in_tree(ns0, cs[po], ch, r));
                assert(in_tree(ns0, cs[qo], ch, r));
            }
        }
    }
    assert forall|x: NodeRef<K, V>| #[trigger] in_children(ns1, cs1, ch, x) implies in_children(ns0, cs, ch, x) by {
        let t = choose|t: int| 0 <= t < cs1.len() && #[trigger] in_tree(ns1, cs1[t], ch, x);
        if t == j {
            if in_tree(ns0, cs[j], ch, x) {
            } else {
                assert(in_tree(ns0, cs[j + 1], ch, x));
            }
        } else if t < j {
            assert(cs1[t] == cs[t]);
            assert(in_tree(ns0, cs[t], ch, x));
        } else {
            assert(cs1[t] == cs[t + 1]);
            assert(in_tree(ns0, cs[t + 1], ch, x));
        }
    }
}

/// The contents of the merged body's children, flattened, are the old ones.
#[verifier::spinoff_prover]
proof fn lemma_merge_contents<K: TreeKey, V>(
    ns0: NodeViews<K, V>,
    ns1: NodeViews<K, V>,
    b: BranchView<K, V>,
    ch: nat,
    lo: Option<int>,
    hi: Option<int>,
    after: NodeId,
    j: int,
)
    requires
        0 <= j,
        j + 1 < b.children.len(),
        merge_ok(ns0, ns1, b, ch, lo, hi, after, j),
        forall|t: int| 0 <= t < b.children.len() && t != j && t != j + 1 ==>
            content(ns1, #[trigger] b.children[t], ch) == content(ns0, b.children[t], ch),
    ensures
        children_contents(ns1, b.children.remove(j + 1), ch).flatten() == children_contents(ns0, b.children, ch).flatten(),
{
    let cs = b.children;
    let cs1 = cs.remove(j + 1);
    lemma_children_contents(ns0, cs, ch);
    lemma_children_contents(ns1, cs1, ch);
    let p0 = children_contents(ns0, cs, ch);
    let p1 = children_contents(ns1, cs1, ch);
    lemma_flatten_pair(p0, j);
    lemma_flatten_split(p1, j);
    assert forall|t: int| 0 <= t < j implies #[trigger] p1.subrange(0, j)[t] == p0.subrange(0, j)[t] by {
        assert(cs1[t] == cs[t]);
    }
    assert(p1.subrange(0, j) =~= p0.subrange(0, j));
    assert forall|t: int| 0 <= t < p1.len() - (j + 1) implies #[trigger] p1.subrange(j + 1, p1.len() as int)[t] == p0.subrange(j + 2, p0.len() as int)[t] by {
        assert(cs1[t + j + 1] == cs[t + j + 2]);
    }
    assert(p1.subrange(j + 1, p1.len() as int) =~= p0.subrange(j + 2, p0.len() as int));
    assert(cs1[j] == cs[j]);
    assert(p1[j] == content(ns1, cs[j], ch));
    let a = p0.subrange(0, j).flatten();
    let c = p0.subrange(j + 2, p0.len() as int).flatten();
    assert(a + p0[j] + p0[j + 1] + c =~= a + (p0[j] + p0[j + 1]) + c);
}

/// A child that absorbed its right neighbour, with the separator between
/// them dropped, leaves the body well-formed with the same entries.
#[verifier::spinoff_prover]
#[verifier::rlimit(80)]
pub proof fn lemma_body_merge<K: TreeKey, V>(
    ns0: NodeViews<K, V>,
    ns1: NodeViews<K, V>,
    b: BranchView<K, V>,
    ch: nat,
    lo: Option<int>,
    hi: Option<int>,
    after: NodeId,
    j: int,
)
    requires
        wf_branch_body(ns0, b, ch, lo, hi, after),
        0 <= j,
        j + 1 < b.children.len(),
        pair_frame(ns0, ns1, b, ch, j),
        merge_ok(ns0, ns1, b, ch, lo, hi, after, j),
    ensures
        ({
            let b1 = BranchView { keys: b.keys.remove(j), children: b.children.remove(j + 1) };
            &&& wf_branch_body(ns1, b1, ch, lo, hi, after)
            &&& children_contents(ns1, b1.children, ch).flatten() == children_contents(ns0, b.children, ch).flatten()
            &&& children_leaf_seq(ns1, b1.children, ch).len() > 0
            &&& children_leaf_seq(ns1, b1.children, ch)[0] == children_leaf_seq(ns0, b.children, ch)[0]
            &&& forall|x: NodeRef<K, V>| #[trigger] in_children(ns1, b1.children, ch, x) ==> in_children(ns0, b.children, ch, x)
        }),
{
    let cs = b.children;
    let ks = b.keys;
    let ks1 = ks.remove(j);
    let cs1 = cs.remove(j + 1);
    let b1 = BranchView { keys: ks1, children: cs1 };
    lemma_frame_pair_others(ns0, ns1, b, ch, lo, hi, after, j);
    lemma_merge_children_wf(ns0, ns1, b, ch, lo, hi, after, j);
    lemma_merge_disjoint(ns0, ns1, b, ch, lo, hi, after, j);
    lemma_merge_contents(ns0, ns1, b, ch, lo, hi, after, j);
    assert forall|p: int, q: int| 0 <= p < q < ks1.len() implies #[trigger] ks1[p].rank() < #[trigger] ks1[q].rank() by {
        let po = if p < j { p } else { p + 1 };
        let qo = if q < j { q } else { q + 1 };
        assert(ks1[p] == ks[po] && ks1[q] == ks[qo]);
        assert(ks[po].rank() < ks[qo].rank());
    }
    assert forall|p: int| 0 <= p < ks1.len() implies rank_in(#[trigger] ks1[p].rank(), lo, hi) by {
        let po = if p < j { p } else { p + 1 };
        assert(ks1[p] == ks[po]);
    }
    assert(keys_sorted(ks1));
    assert(keys_in(ks1, lo, hi));
    assert(crate::tree_spec::first_above(ks1, lo)) by {
        if ks1.len() > 0 && j == 0 {
            assert(ks1[0] == ks[1]);
            assert(ks[0].rank() < ks[1].rank());
        }
    }
    assert(wf_branch_body(ns1, b1, ch, lo, hi, after));
    // first leaf
    assert(wf_node(ns1, cs1[0], ch, child_lo(ks1, 0, lo), child_hi(ks1, 0, hi), child_after(ns1, cs1, 0, ch, after)));
    lemma_wf_basic(ns1, cs1[0], ch, child_lo(ks1, 0, lo), child_hi(ks1, 0, hi), child_after(ns1, cs1, 0, ch, after));
    assert(wf_node(ns0, cs[0], ch, child_lo(ks, 0, lo), child_hi(ks, 0, hi), child_after(ns0, cs, 0, ch, after)));
    lemma_wf_basic(ns0, cs[0], ch, child_lo(ks, 0, lo), child_hi(ks, 0, hi), child_after(ns0, cs, 0, ch, after));
    lemma_children_contents(ns0, cs, ch);
    lemma_children_contents(ns1, cs1, ch);
    lemma_first_leaf(ns1, cs1, ch);
    lemma_first_leaf(ns0, cs, ch);
    assert(cs1[0] == cs[0]);
    if j != 0 {
        assert(leaf_seq(ns1, cs[0], ch) == leaf_seq(ns0, cs[0], ch));
    }
}

/// The left body after giving its last child away.
pub open spec fn body_drop_last<K, V>(b: BranchView<K, V>) -> BranchView<K, V> {
    BranchView { keys: b.keys.drop_last(), children: b.children.drop_last() }
}

/// The right body after receiving a child at the front, with the old
/// separator as its first key.
pub open spec fn body_push_front<K, V>(b: BranchView<K, V>, s: K, c: NodeRef<K, V>) -> BranchView<K, V> {
    BranchView { keys: b.keys.insert(0, s), children: b.children.insert(0, c) }
}

/// The left body after receiving a child at the back, with the old
/// separator as its last key.
pub open spec fn body_push_back<K, V>(b: BranchView<K, V>, s: K, c: NodeRef<K, V>) -> BranchView<K, V> {
    BranchView { keys: b.keys.push(s), children: b.children.push(c) }
}

/// The right body after giving its first child away.
pub open spec fn body_drop_first<K, V>(b: BranchView<K, V>) -> BranchView<K, V> {
    BranchView { keys: b.keys.remove(0), children: b.children.remove(0) }
}

/// Two bodies joined around their separator.
pub open spec fn body_join<K, V>(bl: BranchView<K, V>, s: K, br: BranchView<K, V>) -> BranchView<K, V> {
    BranchView { keys: bl.keys.push(s) + br.keys, children: bl.children + br.children }
}

/// The children of two neighbouring bodies have disjoint subtrees.
pub open spec fn bodies_apart<K, V>(ns: NodeViews<K, V>, bl: BranchView<K, V>, br: BranchView<K, V>, ch: nat) -> bool {
    forall|x: NodeRef<K, V>| #[trigger] in_children(ns, bl.children, ch, x) ==> !in_children(ns, br.children, ch, x)
}

/// Facts shared by the three ways two neighbouring bodies are rearranged:
/// children of both, their bounds, and first leaves.
proof fn lemma_two_bodies<K: TreeKey, V>(
    ns: NodeViews<K, V>,
    bl: BranchView<K, V>,
    br: BranchView<K, V>,
    ch: nat,
    lo: Option<int>,
    s: K,
    hi: Option<int>,
    after: NodeId,
)
    requires
        wf_branch_body(ns, bl, ch, lo, Some(s.rank()), children_leaf_seq(ns, br.children, ch)[0]),
        wf_branch_body(ns, br, ch, Some(s.rank()), hi, after),
    ensures
        forall|t: int| 0 <= t < bl.children.len() ==> #[trigger] wf_node(ns, bl.children[t], ch,
            child_lo(bl.keys, t, lo), child_hi(bl.keys, t, Some(s.rank())),
            child_after(ns, bl.children, t, ch, children_leaf_seq(ns, br.children, ch)[0])),
        forall|t: int| 0 <= t < br.children.len() ==> #[trigger] wf_node(ns, br.children[t], ch,
            child_lo(br.keys, t, Some(s.rank())), child_hi(br.keys, t, hi), child_after(ns, br.children, t, ch, after)),
        forall|t: int| 0 <= t < bl.children.len() ==> #[trigger] leaf_seq(ns, bl.children[t], ch).len() > 0,
        forall|t: int| 0 <= t < br.children.len() ==> #[trigger] leaf_seq(ns, br.children[t], ch).len() > 0,
        children_leaf_seq(ns, bl.children, ch).len() > 0,
        children_leaf_seq(ns, bl.children, ch)[0] == leaf_seq(ns, bl.children[0], ch)[0],
        children_leaf_seq(ns, br.children, ch).len() > 0,
        children_leaf_seq(ns, br.children, ch)[0] == leaf_seq(ns, br.children[0], ch)[0],
        forall|x: NodeRef<K, V>| #[trigger] in_children(ns, bl.children, ch, x) ==> ns.has(x),
        forall|x: NodeRef<K, V>| #[trigger] in_children(ns, br.children, ch, x) ==> ns.has(x),
{
    let a = children_leaf_seq(ns, br.children, ch)[0];
    assert forall|t: int| 0 <= t < bl.children.len() implies #[trigger] leaf_seq(ns, bl.children[t], ch).len() > 0 by {
        assert(wf_node(ns, bl.children[t], ch, child_lo(bl.keys, t, lo), child_hi(bl.keys, t, Some(s.rank())),
            child_after(ns, bl.children, t, ch, a)));
        lemma_wf_basic(ns, bl.children[t], ch, child_lo(bl.keys, t, lo), child_hi(bl.keys, t, Some(s.rank())),
            child_after(ns, bl.children, t, ch, a));
    }
    assert forall|t: int| 0 <= t < br.children.len() implies #[trigger] leaf_seq(ns, br.children[t], ch).len() > 0 by {
        assert(wf_node(ns, br.children[t], ch, child_lo(br.keys, t, Some(s.rank())), child_hi(br.keys, t, hi),
            child_after(ns, br.children, t, ch, after)));
        lemma_wf_basic(ns, br.children[t], ch, child_lo(br.keys, t, Some(s.rank())), child_hi(br.keys, t, hi),
            child_after(ns, br.children, t, ch, after));
    }
    assert(leaf_seq(ns, bl.children[0], ch).len() > 0);
    assert(leaf_seq(ns, br.children[0], ch).len() > 0);
    lemma_first_leaf(ns, bl.children, ch);
    lemma_first_leaf(ns, br.children, ch);
    lemma_body_has(ns, bl, ch, lo, Some(s.rank()), a);
    lemma_body_has(ns, br, ch, Some(s.rank()), hi, after);
}

/// Moving the last child of the left body to the front of the right body,
/// the left's last key becoming the separator and the old separator the
/// right's first key, keeps both bodies well-formed.
#[verifier::spinoff_prover]
#[verifier::rlimit(40)]
pub proof fn lemma_rotate_from_left<K: TreeKey, V>(
    ns: NodeViews<K, V>,
    bl: BranchView<K, V>,
    bc: BranchView<K, V>,
    ch: nat,
    lo: Option<int>,
    s: K,
    hi: Option<int>,
    after: NodeId,
)
    requires
        wf_branch_body(ns, bl, ch, lo, Some(s.rank()), children_leaf_seq(ns, bc.children, ch)[0]),
        wf_branch_body(ns, bc, ch, Some(s.rank()), hi, after),
        bl.keys.len() >= 2,
        bodies_apart(ns, bl, bc, ch),
        hi matches Some(y) ==> s.rank() < y,
    ensures
        ({
            let m = bl.keys.last();
            let bl2 = body_drop_last(bl);
            let bc2 = body_push_front(bc, s, bl.children.last());
            &&& wf_branch_body(ns, bl2, ch, lo, Some(m.rank()), children_leaf_seq(ns, bc2.children, ch)[0])
            &&& wf_branch_body(ns, bc2, ch, Some(m.rank()), hi, after)
            &&& (lo matches Some(x) ==> x < m.rank())
            &&& m.rank() < s.rank()
            &&& children_contents(ns, bl2.children, ch).flatten() + children_contents(ns, bc2.children, ch).flatten()
                == children_contents(ns, bl.children, ch).flatten() + children_contents(ns, bc.children, ch).flatten()
            &&& forall|x: NodeRef<K, V>| #[trigger] in_children(ns, bl2.children, ch, x) || #[trigger] in_children(ns, bc2.children, ch, x)
                ==> in_children(ns, bl.children, ch, x) || in_children(ns, bc.children, ch, x)
            &&& bodies_apart(ns, bl2, bc2, ch)
            &&& children_leaf_seq(ns, bl2.children, ch).len() > 0
            &&& children_leaf_seq(ns, bl2.children, ch)[0] == children_leaf_seq(ns, bl.children, ch)[0]
            &&& children_leaf_seq(ns, bc2.children, ch).len() > 0
        }),
{
    let m = bl.keys.last();
    let mv = bl.children.last();
    let bl2 = body_drop_last(bl);
    let bc2 = body_push_front(bc, s, mv);
    let nl = bl.keys.len() as int;
    let a = children_leaf_seq(ns, bc.children, ch)[0];
    lemma_two_bodies(ns, bl, bc, ch, lo, s, hi, after);
    assert(bc2.children[0] == mv);
    assert(bc2.children[1] == bc.children[0]);
    lemma_first_leaf(ns, bc2.children, ch);
    let a2 = children_leaf_seq(ns, bc2.children, ch)[0];
    assert(a2 == leaf_seq(ns, mv, ch)[0]);
    lemma_first_leaf(ns, bl2.children, ch);
    assert(bl2.children[0] == bl.children[0]);
    // ranks
    assert(bl.keys[0].rank() < bl.keys[nl - 1].rank());
    assert(rank_in(bl.keys[nl - 1].rank(), lo, Some(s.rank())));
    assert(rank_in(bl.keys[0].rank(), lo, Some(s.rank())));
    // left body
    assert forall|t: int| 0 <= t < bl2.children.len() implies #[trigger] wf_node(ns, bl2.children[t], ch,
        child_lo(bl2.keys, t, lo), child_hi(bl2.keys, t, Some(m.rank())), child_after(ns, bl2.children, t, ch, a2)) by {
        assert(bl2.children[t] == bl.children[t]);
        assert(child_lo(bl2.keys, t, lo) == child_lo(bl.keys, t, lo));
        assert(child_hi(bl2.keys, t, Some(m.rank())) == child_hi(bl.keys, t, Some(s.rank())));
        if t + 1 < bl2.children.len() {
            assert(bl2.children[t + 1] == bl.children[t + 1]);
        }
        assert(child_after(ns, bl2.children, t, ch, a2) == child_after(ns, bl.children, t, ch, a));
    }
    assert forall|p: int, q: int| 0 <= p < q < bl2.keys.len() implies #[trigger] bl2.keys[p].rank() < #[trigger] bl2.keys[q].rank() by {
        assert(bl.keys[p].rank() < bl.keys[q].rank());
    }
    assert forall|p: int| 0 <= p < bl2.keys.len() implies rank_in(#[trigger] bl2.keys[p].rank(), lo, Some(m.rank())) by {
        assert(bl.keys[p].rank() < bl.keys[nl - 1].rank());
        assert(rank_in(bl.keys[p].rank(), lo, Some(s.rank())));
    }
    assert forall|p: int, q: int, x: NodeRef<K, V>| 0 <= p < q < bl2.children.len() && #[trigger] in_tree(ns, bl2.children[p], ch, x)
        implies !#[trigger] in_tree(ns, bl2.children[q], ch, x) by {
        assert(bl2.children[p] == bl.children[p] && bl2.children[q] == bl.children[q]);
    }
    assert(keys_sorted(bl2.keys));
    assert(keys_in(bl2.keys, lo, Some(m.rank())));
    assert(children_disjoint(ns, bl2.children, ch));
    assert(wf_branch_body(ns, bl2, ch, lo, Some(m.rank()), a2));
    // right body
    assert(child_lo(bl.keys, nl, lo) == Some(m.rank()));
    assert(child_hi(bl.keys, nl, Some(s.rank())) == Some(s.rank()));
    assert(child_after(ns, bl.children, nl, ch, a) == a);
    assert(wf_node(ns, mv, ch, Some(m.rank()), Some(s.rank()), a));
    assert forall|t: int| 0 <= t < bc2.children.len() implies #[trigger] wf_node(ns, bc2.children[t], ch,
        child_lo(bc2.keys, t, Some(m.rank())), child_hi(bc2.keys, t, hi), child_after(ns, bc2.children, t, ch, after)) by {
        if t == 0 {
            assert(child_hi(bc2.keys, 0, hi) == Some(s.rank()));
            assert(child_after(ns, bc2.children, 0, ch, after) == leaf_seq(ns, bc.children[0], ch)[0]);
        } else {
            assert(bc2.children[t] == bc.children[t - 1]);
            assert(child_lo(bc2.keys, t, Some(m.rank())) == child_lo(bc.keys, t - 1, Some(s.rank())));
            assert(child_hi(bc2.keys, t, hi) == child_hi(bc.keys, t - 1, hi));
            if t + 1 < bc2.children.len() {
                assert(bc2.children[t + 1] == bc.children[t]);
            }
            assert(child_after(ns, bc2.children, t, ch, after) == child_after(ns, bc.children, t - 1, ch, after));
        }
    }
    assert forall|p: int, q: int| 0 <= p < q < bc2.keys.len() implies #[trigger] bc2.keys[p].rank() < #[trigger] bc2.keys[q].rank() by {
        if p == 0 {
            crate::tree_spec::lemma_sorted_le(bc.keys, 0, q - 1);
        } else {
            assert(bc.keys[p - 1].rank() < bc.keys[q - 1].rank());
        }
    }
    assert forall|p: int| 0 <= p < bc2.keys.len() implies rank_in(#[trigger] bc2.keys[p].rank(), Some(m.rank()), hi) by {
        if p > 0 {
            assert(bc2.keys[p] == bc.keys[p - 1]);
            assert(rank_in(bc.keys[p - 1].rank(), Some(s.rank()), hi));
        } else {
            if bc.keys.len() > 0 {
                assert(rank_in(bc.keys[0].rank(), Some(s.rank()), hi));
            } else {
                assert(wf_node(ns, bc.children[0], ch, child_lo(bc.keys, 0, Some(s.rank())), child_hi(bc.keys, 0, hi),
                    child_after(ns, bc.children, 0, ch, after)));
            }
        }
    }
    assert(keys_sorted(bc2.keys));
    assert(keys_in(bc2.keys, Some(m.rank()), hi));
    assert forall|p: int, q: int, x: NodeRef<K, V>| 0 <= p < q < bc2.children.len() && #[trigger] in_tree(ns, bc2.children[p], ch, x)
        implies !#[trigger] in_tree(ns, bc2.children[q], ch, x) by {
        if p == 0 {
            assert(bc2.children[q] == bc.children[q - 1]);
            assert(in_children(ns, bl.children, ch, x));
            if in_tree(ns, bc2.children[q], ch, x) {
                assert(in_children(ns, bc.children, ch, x));
            }
        } else {
            assert(bc2.children[p] == bc.children[p - 1] && bc2.children[q] == bc.children[q - 1]);
        }
    }
    assert(children_disjoint(ns, bc2.children, ch));
    assert(wf_branch_body(ns, bc2, ch, Some(m.rank()), hi, after));
    // contents
    lemma_children_contents(ns, bl.children, ch);
    lemma_children_contents(ns, bl2.children, ch);
    lemma_children_contents(ns, bc.children, ch);
    lemma_children_contents(ns, bc2.children, ch);
    let cm = content(ns, mv, ch);
    assert(children_contents(ns, bl.children, ch) =~= children_contents(ns, bl2.children, ch) + seq![cm]);
    assert(children_contents(ns, bc2.children, ch) =~= seq![cm] + children_contents(ns, bc.children, ch));
    crate::flatten::lemma_flatten_add(children_contents(ns, bl2.children, ch), seq![cm]);
    crate::flatten::lemma_flatten_add(seq![cm], children_contents(ns, bc.children, ch));
    crate::flatten::lemma_flatten_two(cm, cm);
    // subtrees
    assert forall|x: NodeRef<K, V>| #[trigger] in_children(ns, bl2.children, ch, x) || #[trigger] in_children(ns, bc2.children, ch, x)
        implies in_children(ns, bl.children, ch, x) || in_children(ns, bc.children, ch, x) by {
        if in_children(ns, bl2.children, ch, x) {
            let t = choose|t: int| 0 <= t < bl2.children.len() && #[trigger] in_tree(ns, bl2.children[t], ch, x);
            assert(in_tree(ns, bl.children[t], ch, x));
        } else {
            let t = choose|t: int| 0 <= t < bc2.children.len() && #[trigger] in_tree(ns, bc2.children[t], ch, x);
            if t == 0 {
                assert(in_tree(ns, bl.children[nl], ch, x));
            } else {
                assert(in_tree(ns, bc.children[t - 1], ch, x));
            }
        }
    }
    assert forall|x: NodeRef<K, V>| #[trigger] in_children(ns, bl2.children, ch, x) implies !in_children(ns, bc2.children, ch, x) by {
        let t = choose|t: int| 0 <= t < bl2.children.len() && #[trigger] in_tree(ns, bl2.children[t], ch, x);
        assert(in_tree(ns, bl.children[t], ch, x));
        assert(in_children(ns, bl.children, ch, x));
        if in_children(ns, bc2.children, ch, x) {
            let u = choose|u: int| 0 <= u < bc2.children.len() && #[trigger] in_tree(ns, bc2.children[u], ch, x);
            if u == 0 {
                assert(in_tree(ns, bl.children[nl], ch, x));
            } else {
                assert(in_tree(ns, bc.children[u - 1], ch, x));
                assert(in_children(ns, bc.children, ch, x));
            }
        }
    }
}

/// Moving the first child of the right body to the back of the left body,
/// the old separator becoming the left's last key and the right's first key
/// the separator, keeps both bodies well-formed.
#[verifier::spinoff_prover]
#[verifier::rlimit(40)]
pub proof fn lemma_rotate_from_right<K: TreeKey, V>(
    ns: NodeViews<K, V>,
    bc: BranchView<K, V>,
    br: BranchView<K, V>,
    ch: nat,
    lo: Option<int>,
    s: K,
    hi: Option<int>,
    after: NodeId,
)
    requires
        wf_branch_body(ns, bc, ch, lo, Some(s.rank()), children_leaf_seq(ns, br.children, ch)[0]),
        wf_branch_body(ns, br, ch, Some(s.rank()), hi, after),
        br.keys.len() >= 1,
        bodies_apart(ns, bc, br, ch),
        lo matches Some(x) ==> x < s.rank(),
    ensures
        ({
            let m = br.keys[0];
            let bc2 = body_push_back(bc, s, br.children[0]);
            let br2 = body_drop_first(br);
            &&& wf_branch_body(ns, bc2, ch, lo, Some(m.rank()), children_leaf_seq(ns, br2.children, ch)[0])
            &&& wf_branch_body(ns, br2, ch, Some(m.rank()), hi, after)
            &&& s.rank() < m.rank()
            &&& (hi matches Some(y) ==> m.rank() < y)
            &&& children_contents(ns, bc2.children, ch).flatten() + children_contents(ns, br2.children, ch).flatten()
                == children_contents(ns, bc.children, ch).flatten() + children_contents(ns, br.children, ch).flatten()
            &&& forall|x: NodeRef<K, V>| #[trigger] in_children(ns, bc2.children, ch, x) || #[trigger] in_children(ns, br2.children, ch, x)
                ==> in_children(ns, bc.children, ch, x) || in_children(ns, br.children, ch, x)
            &&& bodies_apart(ns, bc2, br2, ch)
            &&& children_leaf_seq(ns, bc2.children, ch).len() > 0
            &&& children_leaf_seq(ns, bc2.children, ch)[0] == children_leaf_seq(ns, bc.children, ch)[0]
            &&& children_leaf_seq(ns, br2.children, ch).len() > 0
        }),
{
    let m = br.keys[0];
    let mv = br.children[0];
    let bc2 = body_push_back(bc, s, mv);
    let br2 = body_drop_first(br);
    let nc = bc.keys.len() as int;
    let a = children_leaf_seq(ns, br.children, ch)[0];
    lemma_two_bodies(ns, bc, br, ch, lo, s, hi, after);
    assert(br2.children[0] == br.children[1]);
    lemma_first_leaf(ns, br2.children, ch);
    let a2 = children_leaf_seq(ns, br2.children, ch)[0];
    assert(a2 == leaf_seq(ns, br.children[1], ch)[0]);
    lemma_first_leaf(ns, bc2.children, ch);
    assert(bc2.children[0] == bc.children[0]);
    assert(rank_in(m.rank(), Some(s.rank()), hi));
    // left body
    assert(child_lo(br.keys, 0, Some(s.rank())) == Some(s.rank()));
    assert(child_hi(br.keys, 0, hi) == Some(m.rank()));
    assert(child_after(ns, br.children, 0, ch, after) == a2);
    assert(wf_node(ns, mv, ch, Some(s.rank()), Some(m.rank()), a2));
    assert forall|t: int| 0 <= t < bc2.children.len() implies #[trigger] wf_node(ns, bc2.children[t], ch,
        child_lo(bc2.keys, t, lo), child_hi(bc2.keys, t, Some(m.rank())), child_after(ns, bc2.children, t, ch, a2)) by {
        if t == nc + 1 {
            assert(bc2.children[t] == mv);
            assert(child_lo(bc2.keys, t, lo) == Some(s.rank()));
        } else {
            assert(bc2.children[t] == bc.children[t]);
            assert(child_lo(bc2.keys, t, lo) == child_lo(bc.keys, t, lo));
            assert(child_hi(bc2.keys, t, Some(m.rank())) == child_hi(bc.keys, t, Some(s.rank())));
            assert(bc2.children[t + 1] == (if t + 1 == nc + 1 { mv } else { bc.children[t + 1] }));
            assert(child_after(ns, bc2.children, t, ch, a2) == child_after(ns, bc.children, t, ch, a));
        }
    }
    assert forall|p: int, q: int| 0 <= p < q < bc2.keys.len() implies #[trigger] bc2.keys[p].rank() < #[trigger] bc2.keys[q].rank() by {
        if q == nc {
            assert(rank_in(bc.keys[p].rank(), lo, Some(s.rank())));
        } else {
            assert(bc.keys[p].rank() < bc.keys[q].rank());
        }
    }
    assert forall|p: int| 0 <= p < bc2.keys.len() implies rank_in(#[trigger] bc2.keys[p].rank(), lo, Some(m.rank())) by {
        if p < nc {
            assert(rank_in(bc.keys[p].rank(), lo, Some(s.rank())));
        }
    }
    assert(crate::tree_spec::first_above(bc2.keys, lo)) by {
        if nc > 0 {
            assert(bc2.keys[0] == bc.keys[0]);
        }
    }
    assert forall|p: int, q: int, x: NodeRef<K, V>| 0 <= p < q < bc2.children.len() && #[trigger] in_tree(ns, bc2.children[p], ch, x)
        implies !#[trigger] in_tree(ns, bc2.children[q], ch, x) by {
        assert(bc2.children[p] == bc.children[p]);
        if q == nc + 1 {
            assert(in_children(ns, bc.children, ch, x));
            if in_tree(ns, mv, ch, x) {
                assert(in_children(ns, br.children, ch, x));
            }
        } else {
            assert(bc2.children[q] == bc.children[q]);
        }
    }
    assert(keys_sorted(bc2.keys));
    assert(keys_in(bc2.keys, lo, Some(m.rank())));
    assert(children_disjoint(ns, bc2.children, ch));
    assert(wf_branch_body(ns, bc2, ch, lo, Some(m.rank()), a2));
    // right body
    assert forall|t: int| 0 <= t < br2.children.len() implies #[trigger] wf_node(ns, br2.children[t], ch,
        child_lo(br2.keys, t, Some(m.rank())), child_hi(br2.keys, t, hi), child_after(ns, br2.children, t, ch, after)) by {
        assert(br2.children[t] == br.children[t + 1]);
        assert(child_lo(br2.keys, t, Some(m.rank())) == child_lo(br.keys, t + 1, Some(s.rank())));
        assert(child_hi(br2.keys, t, hi) == child_hi(br.keys, t + 1, hi));
        if t + 1 < br2.children.len() {
            assert(br2.children[t + 1] == br.children[t + 2]);
        }
        assert(child_after(ns, br2.children, t, ch, after) == child_after(ns, br.children, t + 1, ch, after));
    }
    assert forall|p: int, q: int| 0 <= p < q < br2.keys.len() implies #[trigger] br2.keys[p].rank() < #[trigger] br2.keys[q].rank() by {
        assert(br.keys[p + 1].rank() < br.keys[q + 1].rank());
    }
    assert forall|p: int| 0 <= p < br2.keys.len() implies rank_in(#[trigger] br2.keys[p].rank(), Some(m.rank()), hi) by {
        assert(br2.keys[p] == br.keys[p + 1]);
        assert(rank_in(br.keys[p + 1].rank(), Some(s.rank()), hi));
        assert(br.keys[0].rank() < br.keys[p + 1].rank());
    }
    assert(crate::tree_spec::first_above(br2.keys, Some(m.rank()))) by {
        if br2.keys.len() > 0 {
            assert(br.keys[0].rank() < br.keys[1].rank());
        }
    }
    assert forall|p: int, q: int, x: NodeRef<K, V>| 0 <= p < q < br2.children.len() && #[trigger] in_tree(ns, br2.children[p], ch, x)
        implies !#[trigger] in_tree(ns, br2.children[q], ch, x) by {
        assert(br2.children[p] == br.children[p + 1] && br2.children[q] == br.children[q + 1]);
    }
    assert(keys_sorted(br2.keys));
    assert(keys_in(br2.keys, Some(m.rank()), hi));
    assert(children_disjoint(ns, br2.children, ch));
    assert(wf_branch_body(ns, br2, ch, Some(m.rank()), hi, after));
    // contents
    lemma_children_contents(ns, bc.children, ch);
    lemma_children_contents(ns, bc2.children, ch);
    lemma_children_contents(ns, br.children, ch);
    lemma_children_contents(ns, br2.children, ch);
    let cm = content(ns, mv, ch);
    assert(children_contents(ns, bc2.children, ch) =~= children_contents(ns, bc.children, ch) + seq![cm]);
    assert(children_contents(ns, br.children, ch) =~= seq![cm] + children_contents(ns, br2.children, ch));
    crate::flatten::lemma_flatten_add(children_contents(ns, bc.children, ch), seq![cm]);
    crate::flatten::lemma_flatten_add(seq![cm], children_contents(ns, br2.children, ch));
    crate::flatten::lemma_flatten_two(cm, cm);
    // subtrees
    assert forall|x: NodeRef<K, V>| #[trigger] in_children(ns, bc2.children, ch, x) || #[trigger] in_children(ns, br2.children, ch, x)
        implies in_children(ns, bc.children, ch, x) || in_children(ns, br.children, ch, x) by {
        if in_children(ns, bc2.children, ch, x) {
            let t = choose|t: int| 0 <= t < bc2.children.len() && #[trigger] in_tree(ns, bc2.children[t], ch, x);
            if t == nc + 1 {
                assert(in_tree(ns, br.children[0], ch, x));
            } else {
                assert(in_tree(ns, bc.children[t], ch, x));
            }
        } else {
            let t = choose|t: int| 0 <= t < br2.children.len() && #[trigger] in_tree(ns, br2.children[t], ch, x);
            assert(in_tree(ns, br.children[t + 1], ch, x));
        }
    }
    assert forall|x: NodeRef<K, V>| #[trigger] in_children(ns, bc2.children, ch, x) implies !in_children(ns, br2.children, ch, x) by {
        let t = choose|t: int| 0 <= t < bc2.children.len() && #[trigger] in_tree(ns, bc2.children[t], ch, x);
        if in_children(ns, br2.children, ch, x) {
            let u = choose|u: int| 0 <= u < br2.children.len() && #[trigger] in_tree(ns, br2.children[u], ch, x);
            assert(in_tree(ns, br.children[u + 1], ch, x));
            assert(in_children(ns, br.children, ch, x));
            if t == nc + 1 {
                assert(in_tree(ns, br.children[0], ch, x));
            } else {
                assert(in_tree(ns, bc.children[t], ch, x));
                assert(in_children(ns, bc.children, ch, x));
            }
        }
    }
}

/// Joining two neighbouring bodies around their separator gives a
/// well-formed body with the entries of both.
#[verifier::spinoff_prover]
#[verifier::rlimit(40)]
pub proof fn lemma_join_bodies<K: TreeKey, V>(
    ns: NodeViews<K, V>,
    bl: BranchView<K, V>,
    br: BranchView<K, V>,
    ch: nat,
    lo: Option<int>,
    s: K,
    hi: Option<int>,
    after: NodeId,
)
    requires
        wf_branch_body(ns, bl, ch, lo, Some(s.rank()), children_leaf_seq(ns, br.children, ch)[0]),
        wf_branch_body(ns, br, ch, Some(s.rank()), hi, after),
        bodies_apart(ns, bl, br, ch),
        lo matches Some(x) ==> x < s.rank(),
        hi matches Some(y) ==> s.rank() < y,
    ensures
        ({
            let bj = body_join(bl, s, br);
            &&& wf_branch_body(ns, bj, ch, lo, hi, after)
            &&& children_contents(ns, bj.children, ch).flatten()
                == children_contents(ns, bl.children, ch).flatten() + children_contents(ns, br.children, ch).flatten()
            &&& forall|x: NodeRef<K, V>| #[trigger] in_children(ns, bj.children, ch, x)
                ==> in_children(ns, bl.children, ch, x) || in_children(ns, br.children, ch, x)
            &&& children_leaf_seq(ns, bj.children, ch).len() > 0
            &&& children_leaf_seq(ns, bj.children, ch)[0] == children_leaf_seq(ns, bl.children, ch)[0]
        }),
{
    let bj = body_join(bl, s, br);
    let nl = bl.children.len() as int;
    let kl = bl.keys.len() as int;
    let a = children_leaf_seq(ns, br.children, ch)[0];
    lemma_two_bodies(ns, bl, br, ch, lo, s, hi, after);
    assert(bj.children[0] == bl.children[0]);
    lemma_first_leaf(ns, bj.children, ch);
    assert forall|t: int| 0 <= t < bj.children.len() implies #[trigger] wf_node(ns, bj.children[t], ch,
        child_lo(bj.keys, t, lo), child_hi(bj.keys, t, hi), child_after(ns, bj.children, t, ch, after)) by {
        if t < nl {
            assert(bj.children[t] == bl.children[t]);
            assert(child_lo(bj.keys, t, lo) == child_lo(bl.keys, t, lo));
            assert(child_hi(bj.keys, t, hi) == child_hi(bl.keys, t, Some(s.rank())));
            if t + 1 < nl {
                assert(bj.children[t + 1] == bl.children[t + 1]);
            } else {
                assert(bj.children[t + 1] == br.children[0]);
            }
            assert(child_after(ns, bj.children, t, ch, after) == child_after(ns, bl.children, t, ch, a));
        } else {
            assert(bj.children[t] == br.children[t - nl]);
            assert(child_lo(bj.keys, t, lo) == child_lo(br.keys, t - nl, Some(s.rank())));
            assert(child_hi(bj.keys, t, hi) == child_hi(br.keys, t - nl, hi));
            if t + 1 < bj.children.len() {
                assert(bj.children[t + 1] == br.children[t + 1 - nl]);
            }
            assert(child_after(ns, bj.children, t, ch, after) == child_after(ns, br.children, t - nl, ch, after));
        }
    }
    assert forall|p: int, q: int| 0 <= p < q < bj.keys.len() implies #[trigger] bj.keys[p].rank() < #[trigger] bj.keys[q].rank() by {
        if q < kl {
            assert(bl.keys[p].rank() < bl.keys[q].rank());
        } else if q == kl {
            assert(rank_in(bl.keys[p].rank(), lo, Some(s.rank())));
        } else if p < kl {
            assert(rank_in(bl.keys[p].rank(), lo, Some(s.rank())));
            assert(bj.keys[q] == br.keys[q - kl - 1]);
            assert(rank_in(br.keys[q - kl - 1].rank(), Some(s.rank()), hi));
        } else if p == kl {
            assert(bj.keys[q] == br.keys[q - kl - 1]);
            crate::tree_spec::lemma_sorted_le(br.keys, 0, q - kl - 1);
        } else {
            assert(bj.keys[p] == br.keys[p - kl - 1] && bj.keys[q] == br.keys[q - kl - 1]);
            assert(br.keys[p - kl - 1].rank() < br.keys[q - kl - 1].rank());
        }
    }
    assert forall|p: int| 0 <= p < bj.keys.len() implies rank_in(#[trigger] bj.keys[p].rank(), lo, hi) by {
        if p < kl {
            assert(rank_in(bl.keys[p].rank(), lo, Some(s.rank())));
        } else if p > kl {
            assert(bj.keys[p] == br.keys[p - kl - 1]);
            assert(rank_in(br.keys[p - kl - 1].rank(), Some(s.rank()), hi));
        }
    }
    assert(crate::tree_spec::first_above(bj.keys, lo)) by {
        if kl > 0 {
            assert(bj.keys[0] == bl.keys[0]);
        }
    }
    assert forall|p: int, q: int, x: NodeRef<K, V>| 0 <= p < q < bj.children.len() && #[trigger] in_tree(ns, bj.children[p], ch, x)
        implies !#[trigger] in_tree(ns, bj.children[q], ch, x) by {
        if q < nl {
            assert(bj.children[p] == bl.children[p] && bj.children[q] == bl.children[q]);
        } else if p >= nl {
            assert(bj.children[p] == br.children[p - nl] && bj.children[q] == br.children[q - nl]);
        } else {
            assert(bj.children[p] == bl.children[p] && bj.children[q] == br.children[q - nl]);
            assert(in_children(ns, bl.children, ch, x));
            if in_tree(ns, bj.children[q], ch, x) {
                assert(in_children(ns, br.children, ch, x));
            }
        }
    }
    assert(keys_sorted(bj.keys));
    assert(keys_in(bj.keys, lo, hi));
    assert(children_disjoint(ns, bj.children, ch));
    assert(wf_branch_body(ns, bj, ch, lo, hi, after));
    lemma_children_contents(ns, bl.children, ch);
    lemma_children_contents(ns, br.children, ch);
    lemma_children_contents(ns, bj.children, ch);
    assert(children_contents(ns, bj.children, ch) =~= children_contents(ns, bl.children, ch) + children_contents(ns, br.children, ch));
    crate::flatten::lemma_flatten_add(children_contents(ns, bl.children, ch), children_contents(ns, br.children, ch));
    assert forall|x: NodeRef<K, V>| #[trigger] in_children(ns, bj.children, ch, x)
        implies in_children(ns, bl.children, ch, x) || in_children(ns, br.children, ch, x) by {
        let t = choose|t: int| 0 <= t < bj.children.len() && #[trigger] in_tree(ns, bj.children[t], ch, x);
        if t < nl {
            assert(in_tree(ns, bl.children[t], ch, x));
        } else {
            assert(in_tree(ns, br.children[t - nl], ch, x));
        }
    }
}

} // verus!
