//! The leaves of a well-formed subtree, left to right, are linked by their
//! `next` fields, and their entries in that order are the subtree's
//! entries: what ordered iteration walks.
use crate::tree_spec::{
    child_after, child_hi, child_lo, children_contents, content, leaf_entries, leaf_seq,
    leaf_seqs_of, lemma_children_contents, lemma_wf_basic, lemma_wf_branch_unfold, wf_node,
    NodeViews,
};
use crate::types::{NodeId, NodeRef, TreeKey};
use vstd::prelude::*;

verus! {

/// Each leaf of the sequence exists, holds one value per key and links to
/// the next one, the last one to `after`.
pub open spec fn chain_ok<K, V>(ns: NodeViews<K, V>, l: Seq<NodeId>, after: NodeId) -> bool {
    forall|i: int|
        0 <= i < l.len() ==> #[trigger] ns.leaves.contains_key(l[i]) && ns.leaves[l[i]].next == (if i + 1
            < l.len() {
            l[i + 1]
        } else {
            after
        }) && ns.leaves[l[i]].keys.len() == ns.leaves[l[i]].values.len()
}

/// The entries of each leaf of the sequence.
pub open spec fn chain_entries<K, V>(ns: NodeViews<K, V>, l: Seq<NodeId>) -> Seq<Seq<(K, V)>> {
    l.map_values(|id: NodeId| leaf_entries(ns.leaves[id]))
}

/// Two linked chains, the first linking to the start of the second, form
/// one chain with the entries of both.
pub proof fn lemma_chain_join<K, V>(ns: NodeViews<K, V>, a: Seq<NodeId>, b: Seq<NodeId>, after: NodeId)
    requires
        b.len() > 0,
        chain_ok(ns, a, b[0]),
        chain_ok(ns, b, after),
    ensures
        chain_ok(ns, a + b, after),
        chain_entries(ns, a + b).flatten() == chain_entries(ns, a).flatten() + chain_entries(ns, b).flatten(),
{
    let c = a + b;
    assert forall|i: int| 0 <= i < c.len() implies #[trigger] ns.leaves.contains_key(c[i]) && ns.leaves[c[i]].next == (if i + 1
        < c.len() {
        c[i + 1]
    } else {
        after
    }) && ns.leaves[c[i]].keys.len() == ns.leaves[c[i]].values.len() by {
        if i < a.len() {
            assert(c[i] == a[i]);
            assert(ns.leaves.contains_key(a[i]));
            if i + 1 < a.len() {
                assert(c[i + 1] == a[i + 1]);
            } else {
                assert(c[i + 1] == b[0]);
            }
        } else {
            assert(c[i] == b[i - a.len()]);
            assert(ns.leaves.contains_key(b[i - a.len()]));
            if i + 1 < c.len() {
                assert(c[i + 1] == b[i + 1 - a.len()]);
            }
        }
    }
    assert(chain_entries(ns, c) =~= chain_entries(ns, a) + chain_entries(ns, b));
    crate::flatten::lemma_flatten_add(chain_entries(ns, a), chain_entries(ns, b));
}

/// The leaves under a sequence of subtrees, each linked up to the next
/// subtree's first leaf, form one chain with the subtrees' entries.
proof fn lemma_children_chain<K, V>(ns: NodeViews<K, V>, cs: Seq<NodeRef<K, V>>, h: nat, after: NodeId)
    requires
        forall|t: int| 0 <= t < cs.len() ==> {
            &&& chain_ok(ns, #[trigger] leaf_seq(ns, cs[t], h), child_after(ns, cs, t, h, after))
            &&& content(ns, cs[t], h) == chain_entries(ns, leaf_seq(ns, cs[t], h)).flatten()
            &&& leaf_seq(ns, cs[t], h).len() > 0
        },
    ensures
        chain_ok(ns, leaf_seqs_of(ns, cs, h).flatten(), after),
        children_contents(ns, cs, h).flatten() == chain_entries(ns, leaf_seqs_of(ns, cs, h).flatten()).flatten(),
    decreases cs.len(),
{
    if cs.len() == 0 {
        assert(leaf_seqs_of(ns, cs, h).flatten() =~= Seq::<NodeId>::empty());
        assert(children_contents(ns, cs, h).flatten() =~= Seq::<(K, V)>::empty());
        assert(chain_entries(ns, Seq::<NodeId>::empty()) =~= Seq::<Seq<(K, V)>>::empty());
    } else {
        let d = cs.drop_last();
        let last = cs.last();
        let b = leaf_seq(ns, last, h);
        let a2 = b[0];
        assert(leaf_seq(ns, cs[cs.len() - 1], h) == b);
        assert forall|t: int| 0 <= t < d.len() implies {
            &&& chain_ok(ns, #[trigger] leaf_seq(ns, d[t], h), child_after(ns, d, t, h, a2))
            &&& content(ns, d[t], h) == chain_entries(ns, leaf_seq(ns, d[t], h)).flatten()
            &&& leaf_seq(ns, d[t], h).len() > 0
        } by {
            assert(d[t] == cs[t]);
            assert(leaf_seq(ns, cs[t], h) == leaf_seq(ns, d[t], h));
            if t + 1 < d.len() {
                assert(d[t + 1] == cs[t + 1]);
            }
            assert(child_after(ns, d, t, h, a2) == child_after(ns, cs, t, h, after));
        }
        lemma_children_chain(ns, d, h, a2);
        let a = leaf_seqs_of(ns, d, h).flatten();
        assert(chain_ok(ns, b, after));
        lemma_chain_join(ns, a, b, after);
        crate::flatten::lemma_flatten_add(leaf_seqs_of(ns, d, h), seq![b]);
        crate::flatten::lemma_flatten_one(b);
        assert(leaf_seqs_of(ns, cs, h) =~= leaf_seqs_of(ns, d, h) + seq![b]);
        let cc = content(ns, last, h);
        crate::flatten::lemma_flatten_add(children_contents(ns, d, h), seq![cc]);
        crate::flatten::lemma_flatten_one(cc);
        assert(children_contents(ns, cs, h) =~= children_contents(ns, d, h) + seq![cc]);
    }
}

/// The leaves of a well-formed subtree form a chain ending at `after`
/// whose entries, in order, are the subtree's entries.
pub proof fn lemma_leaf_chain<K: TreeKey, V>(
    ns: NodeViews<K, V>,
    n: NodeRef<K, V>,
    h: nat,
    lo: Option<int>,
    hi: Option<int>,
    after: NodeId,
)
    requires
        wf_node(ns, n, h, lo, hi, after),
    ensures
        chain_ok(ns, leaf_seq(ns, n, h), after),
        content(ns, n, h) == chain_entries(ns, leaf_seq(ns, n, h)).flatten(),
        leaf_seq(ns, n, h).len() > 0,
    decreases h,
{
    lemma_wf_basic(ns, n, h, lo, hi, after);
    match n {
        NodeRef::Leaf(id, _) => {
            let l = leaf_seq(ns, n, h);
            assert(chain_entries(ns, l) =~= seq![leaf_entries(ns.leaves[id])]);
            crate::flatten::lemma_flatten_one(leaf_entries(ns.leaves[id]));
        },
        NodeRef::Branch(id, _) => {
            let b = ns.branches[id];
            let ch = (h - 1) as nat;
            lemma_wf_branch_unfold(ns, n, h, lo, hi, after);
            assert forall|t: int| 0 <= t < b.children.len() implies {
                &&& chain_ok(ns, #[trigger] leaf_seq(ns, b.children[t], ch), child_after(ns, b.children, t, ch, after))
                &&& content(ns, b.children[t], ch) == chain_entries(ns, leaf_seq(ns, b.children[t], ch)).flatten()
                &&& leaf_seq(ns, b.children[t], ch).len() > 0
            } by {
                assert(wf_node(ns, b.children[t], ch, child_lo(b.keys, t, lo), child_hi(b.keys, t, hi),
                    child_after(ns, b.children, t, ch, after)));
                lemma_leaf_chain(ns, b.children[t], ch, child_lo(b.keys, t, lo), child_hi(b.keys, t, hi),
                    child_after(ns, b.children, t, ch, after));
            }
            lemma_children_chain(ns, b.children, ch, after);
        },
    }
}

/// Where leaf `k` of a chain starts among the chain's entries.
pub open spec fn chain_offset<K, V>(ns: NodeViews<K, V>, l: Seq<NodeId>, k: int) -> int {
    chain_entries(ns, l).subrange(0, k).flatten().len() as int
}

/// The entry at position `i` of leaf `k` of a chain is the chain's entry at
/// that leaf's offset plus `i`; offsets grow by each leaf's size.
pub proof fn lemma_chain_index<K, V>(ns: NodeViews<K, V>, l: Seq<NodeId>, k: int)
    requires
        0 <= k < l.len(),
    ensures
        chain_offset(ns, l, k + 1) == chain_offset(ns, l, k) + leaf_entries(ns.leaves[l[k]]).len(),
        chain_offset(ns, l, k + 1) <= chain_entries(ns, l).flatten().len(),
        forall|i: int| 0 <= i < leaf_entries(ns.leaves[l[k]]).len() ==> #[trigger] leaf_entries(ns.leaves[l[k]])[i]
            == chain_entries(ns, l).flatten()[chain_offset(ns, l, k) + i],
{
    let es = chain_entries(ns, l);
    crate::flatten::lemma_flatten_split(es, k);
    assert(es.subrange(0, k + 1) =~= es.subrange(0, k) + seq![es[k]]);
    crate::flatten::lemma_flatten_add(es.subrange(0, k), seq![es[k]]);
    crate::flatten::lemma_flatten_one(es[k]);
}

/// Offsets start at zero and end at the number of entries.
pub proof fn lemma_chain_offset_ends<K, V>(ns: NodeViews<K, V>, l: Seq<NodeId>)
    ensures
        chain_offset(ns, l, 0) == 0,
        chain_offset(ns, l, l.len() as int) == chain_entries(ns, l).flatten().len(),
{
    assert(chain_entries(ns, l).subrange(0, 0) =~= Seq::<Seq<(K, V)>>::empty());
    assert(chain_entries(ns, l).subrange(0, l.len() as int) =~= chain_entries(ns, l));
}

} // verus!
