//! Range queries: where a key's range starts among the tree's leaves, the
//! iterators over key ranges, and the first and last items.
use crate::flatten::{lemma_flatten_add, lemma_flatten_contains, lemma_flatten_one, lemma_flatten_split};
use crate::leaf_chain::{chain_entries, chain_offset, lemma_chain_index, lemma_chain_offset_ends, lemma_leaf_chain};
use crate::sorted::{child_pos, entry_keys, has_key, is_child_pos, is_lower_index, lemma_child_pos_exists, lemma_zip, search_keys};
use crate::tree::BPlusTreeMap;
use crate::tree_spec::{
    child_after, child_hi, child_lo, children_contents, content, leaf_entries, leaf_seq, leaf_seqs_of,
    lemma_children_contents, lemma_wf_basic, lemma_wf_branch_unfold, lemma_wf_first_children, rank_in,
    wf_node, NodeViews,
};
use crate::types::{KeyBound, KeyOrder, NodeId, NodeRef, TreeKey, NULL_NODE};
use crate::iteration::{before_end_info, RangeIterator};
use vstd::prelude::*;

verus! {

/// The leaf reached from `n` by following, at each branch, the child that
/// covers `k`.
pub open spec fn descend_leaf<K: TreeKey, V>(ns: NodeViews<K, V>, n: NodeRef<K, V>, h: nat, k: K) -> NodeId
    decreases h,
{
    match n {
        NodeRef::Leaf(id, _) => id,
        NodeRef::Branch(id, _) => if h > 0 && ns.branches.contains_key(id) {
            let b = ns.branches[id];
            let i = child_pos(b.keys, k);
            if 0 <= i < b.children.len() {
                descend_leaf(ns, b.children[i], (h - 1) as nat, k)
            } else {
                id
            }
        } else {
            id
        },
    }
}

/// The entries of the leaves of a concatenation of leaf sequences are the
/// entries of each sequence in turn.
proof fn lemma_chain_entries_nested<K, V>(ns: NodeViews<K, V>, ls: Seq<Seq<NodeId>>)
    ensures
        chain_entries(ns, ls.flatten()).flatten() == ls.map_values(
            |s: Seq<NodeId>| chain_entries(ns, s).flatten(),
        ).flatten(),
    decreases ls.len(),
{
    let f = |s: Seq<NodeId>| chain_entries(ns, s).flatten();
    if ls.len() == 0 {
        assert(ls.flatten() =~= Seq::<NodeId>::empty());
        assert(chain_entries(ns, ls.flatten()) =~= Seq::<Seq<(K, V)>>::empty());
        assert(ls.map_values(f) =~= Seq::<Seq<(K, V)>>::empty());
    } else {
        let d = ls.drop_last();
        let x = ls.last();
        lemma_chain_entries_nested(ns, d);
        assert(ls =~= d + seq![x]);
        lemma_flatten_add(d, seq![x]);
        lemma_flatten_one(x);
        assert(chain_entries(ns, d.flatten() + x) =~= chain_entries(ns, d.flatten()) + chain_entries(ns, x));
        lemma_flatten_add(chain_entries(ns, d.flatten()), chain_entries(ns, x));
        assert(ls.map_values(f) =~= d.map_values(f) + seq![f(x)]);
        lemma_flatten_add(d.map_values(f), seq![f(x)]);
        lemma_flatten_one(f(x));
    }
}

/// Leaf `j` of child `t` starts, among the entries of all children's
/// leaves, after the entries of the earlier children.
proof fn lemma_offset_in_children<K, V>(ns: NodeViews<K, V>, cs: Seq<NodeRef<K, V>>, h: nat, t: int, j: int)
    requires
        0 <= t < cs.len(),
        0 <= j <= leaf_seq(ns, cs[t], h).len(),
        forall|u: int|
            0 <= u < cs.len() ==> #[trigger] content(ns, cs[u], h) == chain_entries(
                ns,
                leaf_seq(ns, cs[u], h),
            ).flatten(),
    ensures
        ({
            let ls = leaf_seqs_of(ns, cs, h);
            chain_offset(ns, ls.flatten(), ls.subrange(0, t).flatten().len() + j) == children_contents(
                ns,
                cs,
                h,
            ).subrange(0, t).flatten().len() + chain_offset(ns, ls[t], j)
        }),
{
    let ls = leaf_seqs_of(ns, cs, h);
    let parts = children_contents(ns, cs, h);
    lemma_children_contents(ns, cs, h);
    let a = ls.subrange(0, t);
    let x = ls[t];
    let m = a.flatten().len();
    let l = ls.flatten();
    lemma_flatten_split(ls, t);
    assert(l.subrange(0, m + j) =~= a.flatten() + x.subrange(0, j));
    assert(chain_entries(ns, l).subrange(0, m + j) =~= chain_entries(ns, a.flatten()) + chain_entries(
        ns,
        x,
    ).subrange(0, j));
    lemma_flatten_add(chain_entries(ns, a.flatten()), chain_entries(ns, x).subrange(0, j));
    lemma_chain_entries_nested(ns, a);
    let f = |s: Seq<NodeId>| chain_entries(ns, s).flatten();
    assert(a.map_values(f) =~= parts.subrange(0, t)) by {
        assert forall|u: int| 0 <= u < t implies #[trigger] a.map_values(f)[u] == parts.subrange(0, t)[u] by {
            assert(a[u] == ls[u]);
            assert(ls[u] == leaf_seq(ns, cs[u], h));
            assert(parts[u] == content(ns, cs[u], h));
        }
    }
}

/// In a branch, the entries of the children before the one covering `k`
/// have smaller keys, and those of the children after it larger keys.
#[verifier::spinoff_prover]
proof fn lemma_outside_covering_child<K: TreeKey, V>(
    ns: NodeViews<K, V>,
    n: NodeRef<K, V>,
    h: nat,
    lo: Option<int>,
    hi: Option<int>,
    after: NodeId,
    k: K,
)
    requires
        wf_node(ns, n, h, lo, hi, after),
        n is Branch,
    ensures
        ({
            let b = ns.branches[n.spec_id()];
            let parts = children_contents(ns, b.children, (h - 1) as nat);
            let i = child_pos(b.keys, k);
            let pre = parts.subrange(0, i).flatten().len();
            let c = parts.flatten();
            &&& forall|p: int| 0 <= p < pre ==> #[trigger] c[p].0.rank() < k.rank()
            &&& forall|p: int| pre + parts[i].len() <= p < c.len() ==> k.rank() < #[trigger] c[p].0.rank()
        }),
{
    let b = ns.branches[n.spec_id()];
    let cs = b.children;
    let ch = (h - 1) as nat;
    lemma_wf_branch_unfold(ns, n, h, lo, hi, after);
    lemma_child_pos_exists(b.keys, k);
    let i = child_pos(b.keys, k);
    lemma_wf_first_children(ns, b.keys, cs, ch, lo, hi, after, cs.len());
    lemma_children_contents(ns, cs, ch);
    let parts = children_contents(ns, cs, ch);
    let c = parts.flatten();
    lemma_flatten_split(parts, i);
    let front = parts.subrange(0, i);
    let back = parts.subrange(i + 1, parts.len() as int);
    let pre = front.flatten().len();
    let ci = parts[i];
    assert forall|p: int| 0 <= p < pre implies #[trigger] c[p].0.rank() < k.rank() by {
        let e = c[p];
        assert(front.flatten()[p] == e);
        assert(front.flatten().contains(e));
        lemma_flatten_contains(front, e);
        let j = choose|j: int| 0 <= j < front.len() && #[trigger] front[j].contains(e);
        assert(front[j] == parts[j]);
        assert(wf_node(ns, cs[j], ch, child_lo(b.keys, j, lo), child_hi(b.keys, j, hi), child_after(ns, cs, j, ch, after)));
        lemma_wf_basic(ns, cs[j], ch, child_lo(b.keys, j, lo), child_hi(b.keys, j, hi), child_after(ns, cs, j, ch, after));
        let q = choose|q: int| 0 <= q < parts[j].len() && parts[j][q] == e;
        assert(rank_in(parts[j][q].0.rank(), child_lo(b.keys, j, lo), child_hi(b.keys, j, hi)));
        crate::tree_spec::lemma_sorted_le(b.keys, j, i - 1);
    }
    assert forall|p: int| pre + ci.len() <= p < c.len() implies k.rank() < #[trigger] c[p].0.rank() by {
        let e = c[p];
        assert(back.flatten()[p - pre - ci.len()] == e);
        assert(back.flatten().contains(e));
        lemma_flatten_contains(back, e);
        let j0 = choose|j: int| 0 <= j < back.len() && #[trigger] back[j].contains(e);
        let j = j0 + i + 1;
        assert(back[j0] == parts[j]);
        assert(wf_node(ns, cs[j], ch, child_lo(b.keys, j, lo), child_hi(b.keys, j, hi), child_after(ns, cs, j, ch, after)));
        lemma_wf_basic(ns, cs[j], ch, child_lo(b.keys, j, lo), child_hi(b.keys, j, hi), child_after(ns, cs, j, ch, after));
        let q = choose|q: int| 0 <= q < parts[j].len() && parts[j][q] == e;
        assert(rank_in(parts[j][q].0.rank(), child_lo(b.keys, j, lo), child_hi(b.keys, j, hi)));
        crate::tree_spec::lemma_sorted_le(b.keys, i, j - 1);
    }
}

/// Descending toward `k` from a well-formed subtree reaches leaf `kk` of
/// its leaves: every entry before that leaf has a smaller key, and every
/// entry after it a larger one.
#[verifier::spinoff_prover]
#[verifier::rlimit(40)]
pub proof fn lemma_descend<K: TreeKey, V>(
    ns: NodeViews<K, V>,
    n: NodeRef<K, V>,
    h: nat,
    lo: Option<int>,
    hi: Option<int>,
    after: NodeId,
    k: K,
) -> (kk: int)
    requires
        wf_node(ns, n, h, lo, hi, after),
        rank_in(k.rank(), lo, hi),
    ensures
        ({
            let l = leaf_seq(ns, n, h);
            let c = content(ns, n, h);
            &&& 0 <= kk < l.len()
            &&& l[kk] == descend_leaf(ns, n, h, k)
            &&& forall|p: int| 0 <= p < chain_offset(ns, l, kk) ==> #[trigger] c[p].0.rank() < k.rank()
            &&& forall|p: int|
                chain_offset(ns, l, kk + 1) <= p < c.len() ==> k.rank() < #[trigger] c[p].0.rank()
        }),
    decreases h,
{
    lemma_wf_basic(ns, n, h, lo, hi, after);
    lemma_leaf_chain(ns, n, h, lo, hi, after);
    match n {
        NodeRef::Leaf(id, _) => {
            let l = leaf_seq(ns, n, h);
            lemma_chain_offset_ends(ns, l);
            assert(l.len() == 1);
            0
        },
        NodeRef::Branch(id, _) => {
            let b = ns.branches[id];
            let cs = b.children;
            let ch = (h - 1) as nat;
            lemma_wf_branch_unfold(ns, n, h, lo, hi, after);
            lemma_child_pos_exists(b.keys, k);
            let i = child_pos(b.keys, k);
            lemma_wf_first_children(ns, b.keys, cs, ch, lo, hi, after, cs.len());
            assert(wf_node(ns, cs[i], ch, child_lo(b.keys, i, lo), child_hi(b.keys, i, hi), child_after(ns, cs, i, ch, after)));
            if i > 0 {
                assert(b.keys[i - 1].rank() <= k.rank());
            }
            if i < b.keys.len() {
                assert(k.rank() < b.keys[i].rank());
            }
            assert(rank_in(k.rank(), child_lo(b.keys, i, lo), child_hi(b.keys, i, hi)));
            let k1 = lemma_descend(ns, cs[i], ch, child_lo(b.keys, i, lo), child_hi(b.keys, i, hi),
                child_after(ns, cs, i, ch, after), k);
            lemma_children_contents(ns, cs, ch);
            let ls = leaf_seqs_of(ns, cs, ch);
            let parts = children_contents(ns, cs, ch);
            let l = ls.flatten();
            let c = parts.flatten();
            assert(leaf_seq(ns, n, h) == l);
            assert(content(ns, n, h) == c);
            assert forall|u: int| 0 <= u < cs.len() implies #[trigger] content(ns, cs[u], ch) == chain_entries(
                ns,
                leaf_seq(ns, cs[u], ch),
            ).flatten() by {
                assert(wf_node(ns, cs[u], ch, child_lo(b.keys, u, lo), child_hi(b.keys, u, hi), child_after(ns, cs, u, ch, after)));
                lemma_leaf_chain(ns, cs[u], ch, child_lo(b.keys, u, lo), child_hi(b.keys, u, hi),
                    child_after(ns, cs, u, ch, after));
            }
            let li = ls[i];
            let m = ls.subrange(0, i).flatten().len();
            let kk = m + k1;
            lemma_offset_in_children(ns, cs, ch, i, k1);
            lemma_offset_in_children(ns, cs, ch, i, k1 + 1);
            lemma_flatten_split(ls, i);
            lemma_flatten_split(parts, i);
            let pre = parts.subrange(0, i).flatten().len();
            let ci = parts[i];
            assert(ci == content(ns, cs[i], ch));
            assert(l[kk] == li[k1]);
            let off0 = chain_offset(ns, li, k1);
            let off1 = chain_offset(ns, li, k1 + 1);
            assert(chain_offset(ns, l, kk) == pre + off0);
            assert(chain_offset(ns, l, kk + 1) == pre + off1);
            lemma_outside_covering_child(ns, n, h, lo, hi, after, k);
            lemma_chain_index(ns, li, k1);
            assert(ci == chain_entries(ns, li).flatten());
            let front = parts.subrange(0, i);
            let back = parts.subrange(i + 1, parts.len() as int);
            assert(c == front.flatten() + ci + back.flatten());
            assert forall|p: int| 0 <= p < chain_offset(ns, l, kk) implies #[trigger] c[p].0.rank() < k.rank() by {
                if p >= pre {
                    assert((front.flatten() + ci + back.flatten())[p] == ci[p - pre]);
                }
            }
            assert forall|p: int| chain_offset(ns, l, kk + 1) <= p < c.len() implies k.rank() < #[trigger] c[p].0.rank() by {
                if p < pre + ci.len() {
                    assert(pre <= p);
                    assert((front.flatten() + ci + back.flatten())[p] == ci[p - pre]);
                }
            }
            kk
        },
    }
}

/// The last leaf under a sequence of children is the last leaf of the last
/// child.
pub(crate) proof fn lemma_last_leaf<K: TreeKey, V>(ns: NodeViews<K, V>, cs: Seq<NodeRef<K, V>>, ch: nat)
    requires
        cs.len() > 0,
        leaf_seq(ns, cs[cs.len() - 1], ch).len() > 0,
    ensures
        leaf_seqs_of(ns, cs, ch).flatten().len() > 0,
        leaf_seqs_of(ns, cs, ch).flatten().last() == leaf_seq(ns, cs[cs.len() - 1], ch).last(),
{
    lemma_children_contents(ns, cs, ch);
    let ls = leaf_seqs_of(ns, cs, ch);
    let t = cs.len() - 1;
    lemma_flatten_split(ls, t);
    assert(ls.subrange(t + 1, ls.len() as int) =~= Seq::<Seq<NodeId>>::empty());
    assert(ls.subrange(t + 1, ls.len() as int).flatten() =~= Seq::<NodeId>::empty());
}

/// A key is among a subtree's entries exactly when the leaf reached by
/// descending toward it holds it.
pub proof fn lemma_descend_has_key<K: TreeKey, V>(
    ns: NodeViews<K, V>,
    n: NodeRef<K, V>,
    h: nat,
    lo: Option<int>,
    hi: Option<int>,
    after: NodeId,
    k: K,
)
    requires
        wf_node(ns, n, h, lo, hi, after),
        rank_in(k.rank(), lo, hi),
    ensures
        ns.leaves.contains_key(descend_leaf(ns, n, h, k)),
        has_key(content(ns, n, h), k) <==> ns.leaves[descend_leaf(ns, n, h, k)].keys.contains(k),
{
    let l = leaf_seq(ns, n, h);
    let c = content(ns, n, h);
    let kk = lemma_descend(ns, n, h, lo, hi, after, k);
    lemma_leaf_chain(ns, n, h, lo, hi, after);
    lemma_chain_index(ns, l, kk);
    let lid = l[kk];
    assert(ns.leaves.contains_key(lid));
    let lv = ns.leaves[lid];
    lemma_zip(lv.keys, lv.values);
    let le = leaf_entries(lv);
    let off = chain_offset(ns, l, kk);
    if has_key(c, k) {
        let j = choose|j: int| 0 <= j < c.len() && #[trigger] c[j].0 == k;
        assert(off <= j < off + le.len());
        assert(le[j - off] == c[j]);
        assert(lv.keys[j - off] == k);
    }
    if lv.keys.contains(k) {
        let t = choose|t: int| 0 <= t < lv.keys.len() && lv.keys[t] == k;
        assert(le[t] == c[off + t]);
        assert(c[off + t].0 == k);
    }
}

impl<K: TreeKey, V> BPlusTreeMap<K, V> {
    /// Leaf `kk` of the tree is `id`, and position `idx` in it is where
    /// `k` sits or would be inserted among all the tree's keys.
    pub open spec fn range_start(&self, kk: int, id: NodeId, idx: usize, k: K) -> bool {
        let l = leaf_seq(self.views(), self.root, self.height@);
        &&& 0 <= kk < l.len()
        &&& l[kk] == id
        &&& self.leaf_arena@.contains_key(id)
        &&& id == descend_leaf(self.views(), self.root, self.height@, k)
        &&& is_lower_index(self.leaf_arena@[id].keys@, k, idx as int)
        &&& is_lower_index(entry_keys(self.entries()), k, chain_offset(self.views(), l, kk) + idx)
    }

    /// The leaf where `key` is or would be, reached by descending from the
    /// root, and the position of `key` in it.
    fn find_leaf_for_key(&self, key: &K) -> (r: Option<(NodeId, usize)>)
        requires
            self.wf(),
        ensures
            r is Some,
            r.unwrap().0 == descend_leaf(self.views(), self.root, self.height@, *key),
            exists|kk: int| self.range_start(kk, r.unwrap().0, r.unwrap().1, *key),
    {
        let ghost ns = self.views();
        let mut current = self.root;
        let ghost mut h = self.height@;
        let ghost mut lo: Option<int> = None;
        let ghost mut hi: Option<int> = None;
        let ghost mut after: NodeId = NULL_NODE;
        loop
            invariant
                self.wf(),
                ns == self.views(),
                wf_node(ns, current, h, lo, hi, after),
                rank_in(key.rank(), lo, hi),
                descend_leaf(ns, current, h, *key) == descend_leaf(ns, self.root, self.height@, *key),
            decreases h,
        {
            match current {
                NodeRef::Leaf(leaf_id, _) => {
                    match self.get_leaf(leaf_id) {
                        Some(leaf) => {
                            proof {
                                assert(ns.leaves[leaf_id] == crate::tree::lview(*leaf));
                            }
                            let index = match search_keys(&leaf.keys, key) {
                                Ok(idx) => idx,
                                Err(idx) => idx,
                            };
                            proof {
                                assert(descend_leaf(ns, current, h, *key) == leaf_id);
                                self.lemma_start_of_leaf(leaf_id, index, *key);
                            }
                            let r = Some((leaf_id, index));
                            assert(r.unwrap().0 == leaf_id && r.unwrap().1 == index);
                            return r;
                        },
                        None => {
                            return None;
                        },
                    }
                },
                NodeRef::Branch(branch_id, _) => {
                    proof {
                        lemma_wf_branch_unfold(ns, current, h, lo, hi, after);
                    }
                    match self.get_branch(branch_id) {
                        Some(branch) => {
                            let child_index = branch.find_child_index(key);
                            if child_index < branch.children.len() {
                                let ghost b = ns.branches[branch_id];
                                let ghost ch = (h - 1) as nat;
                                let ghost i = child_index as int;
                                proof {
                                    assert(b.children == branch.children@);
                                    assert(b.keys == branch.keys@);
                                    lemma_wf_first_children(ns, b.keys, b.children, ch, lo, hi, after, b.children.len());
                                    assert(wf_node(ns, b.children[i], ch, child_lo(b.keys, i, lo), child_hi(b.keys, i, hi),
                                        child_after(ns, b.children, i, ch, after)));
                                    if i > 0 {
                                        assert(b.keys[i - 1].rank() <= key.rank());
                                    }
                                    if i < b.keys.len() {
                                        assert(key.rank() < b.keys[i].rank());
                                    }
                                    let nlo = child_lo(b.keys, i, lo);
                                    let nhi = child_hi(b.keys, i, hi);
                                    let naf = child_after(ns, b.children, i, ch, after);
                                    lo = nlo;
                                    hi = nhi;
                                    after = naf;
                                    h = ch;
                                }
                                current = branch.children[child_index];
                            } else {
                                return None;
                            }
                        },
                        None => {
                            return None;
                        },
                    }
                },
            }
        }
    }

    /// The leaf reached by descending toward `k`, with `idx` the place of
    /// `k` among that leaf's keys, marks where `k` sits among all keys.
    proof fn lemma_start_of_leaf(&self, id: NodeId, idx: usize, k: K)
        requires
            self.wf(),
            id == descend_leaf(self.views(), self.root, self.height@, k),
            self.leaf_arena@.contains_key(id),
            is_lower_index(self.leaf_arena@[id].keys@, k, idx as int),
        ensures
            exists|kk: int| self.range_start(kk, id, idx, k),
    {
        let ns = self.views();
        let l = leaf_seq(ns, self.root, self.height@);
        let kk = lemma_descend(ns, self.root, self.height@, None, None, NULL_NODE, k);
        lemma_leaf_chain(ns, self.root, self.height@, None, None, NULL_NODE);
        lemma_chain_index(ns, l, kk);
        let e = self.entries();
        let off = chain_offset(ns, l, kk);
        let le = leaf_entries(ns.leaves[id]);
        assert(ns.leaves[id] == crate::tree::lview(self.leaf_arena@[id]));
        assert(le.len() == self.leaf_arena@[id].keys@.len());
        let ks = entry_keys(e);
        assert forall|j: int| 0 <= j < off + idx implies #[trigger] ks[j].rank() < k.rank() by {
            if j >= off {
                assert(le[j - off] == e[j]);
                assert(le[j - off].0 == self.leaf_arena@[id].keys@[j - off]);
            }
        }
        assert forall|j: int| off + idx <= j < ks.len() implies k.rank() <= #[trigger] ks[j].rank() by {
            if j < off + le.len() {
                assert(le[j - off] == e[j]);
                assert(le[j - off].0 == self.leaf_arena@[id].keys@[j - off]);
            }
        }
        assert(self.range_start(kk, id, idx, k));
    }

    /// The leaf and position where a range from `key` starts.
    fn find_range_start(&self, key: &K) -> (r: Option<(NodeId, usize)>)
        requires
            self.wf(),
        ensures
            r is Some,
            r.unwrap().0 == descend_leaf(self.views(), self.root, self.height@, *key),
            exists|kk: int| self.range_start(kk, r.unwrap().0, r.unwrap().1, *key),
    {
        self.find_leaf_for_key(key)
    }

    /// The last leaf and the index of its last key (0 when it is empty).
    fn find_last_leaf_position(&self) -> (r: Option<(NodeId, usize)>)
        requires
            self.wf(),
        ensures
            ({
                let l = leaf_seq(self.views(), self.root, self.height@);
                let n = self.leaf_arena@[l.last()].keys@.len();
                r == Some((l.last(), if n == 0 { 0usize } else { (n - 1) as usize }))
            }),
    {
        let ghost ns = self.views();
        let mut current = self.root;
        let ghost mut h = self.height@;
        let ghost mut lo: Option<int> = None;
        let ghost mut hi: Option<int> = None;
        let ghost mut after: NodeId = NULL_NODE;
        proof {
            lemma_wf_basic(ns, current, h, lo, hi, after);
        }
        loop
            invariant
                self.wf(),
                ns == self.views(),
                wf_node(ns, current, h, lo, hi, after),
                leaf_seq(ns, current, h).len() > 0,
                leaf_seq(ns, current, h).last() == leaf_seq(ns, self.root, self.height@).last(),
            decreases h,
        {
            match current {
                NodeRef::Leaf(leaf_id, _) => {
                    match self.get_leaf(leaf_id) {
                        Some(leaf) => {
                            let last_index = if leaf.keys.len() == 0 {
                                0
                            } else {
                                leaf.keys.len() - 1
                            };
                            return Some((leaf_id, last_index));
                        },
                        None => {
                            return None;
                        },
                    }
                },
                NodeRef::Branch(branch_id, _) => {
                    proof {
                        lemma_wf_branch_unfold(ns, current, h, lo, hi, after);
                    }
                    match self.get_branch(branch_id) {
                        Some(branch) => {
                            let n = branch.children.len();
                            if n > 0 {
                                let ghost b = ns.branches[branch_id];
                                let ghost ch = (h - 1) as nat;
                                let ghost i = n - 1;
                                proof {
                                    assert(b.children == branch.children@);
                                    lemma_wf_first_children(ns, b.keys, b.children, ch, lo, hi, after, b.children.len());
                                    assert(wf_node(ns, b.children[i], ch, child_lo(b.keys, i, lo), child_hi(b.keys, i, hi),
                                        child_after(ns, b.children, i, ch, after)));
                                    lemma_wf_basic(ns, b.children[i], ch, child_lo(b.keys, i, lo), child_hi(b.keys, i, hi),
                                        child_after(ns, b.children, i, ch, after));
                                    lemma_last_leaf(ns, b.children, ch);
                                    let nlo = child_lo(b.keys, i, lo);
                                    let nhi = child_hi(b.keys, i, hi);
                                    let naf = child_after(ns, b.children, i, ch, after);
                                    lo = nlo;
                                    hi = nhi;
                                    after = naf;
                                    h = ch;
                                }
                                current = branch.children[n - 1];
                            } else {
                                return None;
                            }
                        },
                        None => {
                            return None;
                        },
                    }
                },
            }
        }
    }
}

/// The end bound as the iterators keep it: the key and whether it is
/// included.
pub open spec fn end_info_of<K>(b: KeyBound<K>) -> Option<(K, bool)> {
    match b {
        KeyBound::Included(k) => Some((k, true)),
        KeyBound::Excluded(k) => Some((k, false)),
        KeyBound::Unbounded => None,
    }
}

impl<K: TreeKey, V> BPlusTreeMap<K, V> {
    /// Where a range with these bounds starts, whether the item at the
    /// start is to be skipped (an excluded start key that the tree holds),
    /// and its end bound.
    pub fn resolve_range_bounds(&self, start: KeyBound<K>, end: KeyBound<K>) -> (r: (
        Option<(NodeId, usize)>,
        bool,
        Option<(K, bool)>,
    ))
        requires
            self.wf(),
        ensures
            match start {
                KeyBound::Included(k) => r.0 is Some && !r.1 && exists|kk: int|
                    self.range_start(kk, r.0.unwrap().0, r.0.unwrap().1, k),
                KeyBound::Excluded(k) => {
                    let keys = self.leaf_arena@[r.0.unwrap().0].keys@;
                    let idx = r.0.unwrap().1 as int;
                    &&& r.0 is Some
                    &&& exists|kk: int| self.range_start(kk, r.0.unwrap().0, r.0.unwrap().1, k)
                    &&& r.1 == (idx < keys.len() && keys[idx] == k)
                },
                KeyBound::Unbounded => r.0 == Some((leaf_seq(self.views(), self.root, self.height@)[0], 0usize))
                    && !r.1,
            },
            r.2 == end_info_of(end),
    {
        let (start_info, skip_first) = match start {
            KeyBound::Included(key) => (self.find_range_start(&key), false),
            KeyBound::Excluded(key) => {
                let start = self.find_range_start(&key);
                let at_key = match start {
                    Some((id, idx)) => match self.get_leaf(id) {
                        Some(leaf) => {
                            if idx < leaf.keys.len() {
                                proof {
                                    K::lemma_rank_injective(leaf.keys@[idx as int], key);
                                }
                                matches!(leaf.keys[idx].compare_key(&key), KeyOrder::Equal)
                            } else {
                                false
                            }
                        },
                        None => false,
                    },
                    None => false,
                };
                (start, at_key)
            },
            KeyBound::Unbounded => (
                match self.get_first_leaf_id() {
                    Some(id) => Some((id, 0usize)),
                    None => None,
                },
                false,
            ),
        };
        let end_info = match end {
            KeyBound::Included(key) => Some((key, true)),
            KeyBound::Excluded(key) => Some((key, false)),
            KeyBound::Unbounded => None,
        };
        (start_info, skip_first, end_info)
    }

    /// An iterator over the items whose keys lie within `start` and `end`.
    /// An excluded start key that the tree holds is skipped.
    pub fn range(&self, start: KeyBound<K>, end: KeyBound<K>) -> (r: RangeIterator<'_, K, V>)
        requires
            self.wf(),
        ensures
            r.valid(),
            r.inner() is Some,
            r.inner().unwrap().spec_tree() == self,
            !r.inner().unwrap().done(),
            forall|x: K| #[trigger] r.inner().unwrap().before_end(x) == before_end_info(end_info_of(end), x),
            match start {
                KeyBound::Included(k) => is_lower_index(entry_keys(self.entries()), k, r.inner().unwrap().pos())
                    && !r.skip_pending(),
                KeyBound::Excluded(k) => {
                    let g = r.inner().unwrap().pos();
                    let e = self.entries();
                    &&& is_lower_index(entry_keys(e), k, g)
                    &&& r.skip_pending() == (g < e.len() && e[g].0 == k)
                    &&& r.skip_pending() ==> r.skip_key() == Some(k)
                },
                KeyBound::Unbounded => r.inner().unwrap().pos() == 0 && !r.skip_pending(),
            },
    {
        let (start_info, skip_first, end_info) = self.resolve_range_bounds(start, end);
        let ghost kk = match start {
            KeyBound::Included(k) => choose|kk: int| self.range_start(kk, start_info.unwrap().0, start_info.unwrap().1, k),
            KeyBound::Excluded(k) => choose|kk: int| self.range_start(kk, start_info.unwrap().0, start_info.unwrap().1, k),
            KeyBound::Unbounded => 0,
        };
        let ghost ns = self.views();
        let ghost l = leaf_seq(ns, self.root, self.height@);
        proof {
            lemma_leaf_chain(ns, self.root, self.height@, None, None, NULL_NODE);
            lemma_chain_offset_ends(ns, l);
            assert(ns.leaves.contains_key(l[0]));
        }
        let r = RangeIterator::new_with_skip_owned(self, start_info, skip_first, end_info, Ghost(kk));
        proof {
            if let KeyBound::Excluded(k) = start {
                let id = start_info.unwrap().0;
                let idx = start_info.unwrap().1 as int;
                let keys = self.leaf_arena@[id].keys@;
                lemma_chain_index(ns, l, kk);
                assert(ns.leaves[id] == crate::tree::lview(self.leaf_arena@[id]));
                assert(self.range_start(kk, id, start_info.unwrap().1, k));
                let g = chain_offset(ns, l, kk) + idx;
                let e = self.entries();
                lemma_descend_has_key(ns, self.root, self.height@, None, None, NULL_NODE, k);
                if idx < keys.len() {
                    assert(leaf_entries(ns.leaves[id])[idx] == e[g]);
                } else {
                    if g < e.len() && e[g].0 == k {
                        assert(has_key(e, k));
                        let j = choose|j: int| 0 <= j < keys.len() && keys[j] == k;
                        assert(keys[j].rank() < k.rank());
                    }
                }
            }
        }
        r
    }
}

impl<K: TreeKey, V> BPlusTreeMap<K, V> {
    /// The item with the smallest key, if any.
    pub fn first(&self) -> (r: Option<(&K, &V)>)
        requires
            self.wf(),
        ensures
            self.entries().len() == 0 ==> r is None,
            self.entries().len() > 0 ==> r is Some && *r.unwrap().0 == self.entries()[0].0 && *r.unwrap().1
                == self.entries()[0].1,
    {
        let mut it = self.items();
        it.next()
    }

    /// The first entry is an item of the map whose key ranks below every
    /// other key of the map, and the map is empty exactly when there is no
    /// first entry.
    pub proof fn lemma_first_smallest(&self)
        requires
            self.wf(),
        ensures
            (self.entries().len() == 0) == (self@.dom() =~= Set::<K>::empty()),
            self.entries().len() > 0 ==> {
                let (k0, v0) = self.entries()[0];
                &&& self@.contains_key(k0)
                &&& self@[k0] == v0
                &&& forall|k: K| #[trigger] self@.contains_key(k) && k != k0 ==> k0.rank() < k.rank()
            },
    {
        let e = self.entries();
        self.lemma_entries_sorted();
        if e.len() > 0 {
            assert(e.contains(e[0]));
            crate::sorted::lemma_map_get(e, e[0].0, e[0].1);
            assert forall|k: K| #[trigger] self@.contains_key(k) && k != e[0].0 implies e[0].0.rank() < k.rank() by {
                let i = choose|i: int| 0 <= i < e.len() && #[trigger] e[i].0 == k;
                assert(i != 0);
            }
            assert(self@.contains_key(e[0].0));
        } else {
            assert forall|k: K| !#[trigger] self@.contains_key(k) by {}
        }
    }

    /// The item with the largest key, if any.
    pub fn last(&self) -> (r: Option<(&K, &V)>)
        requires
            self.wf(),
        ensures
            self.entries().len() == 0 ==> r is None,
            self.entries().len() > 0 ==> r is Some && *r.unwrap().0 == self.entries().last().0 && *r.unwrap().1
                == self.entries().last().1,
    {
        let ghost e = self.entries();
        let mut it = self.items();
        let mut last: Option<(&K, &V)> = None;
        loop
            invariant
                e == self.entries(),
                it.valid(),
                it.spec_tree() == self,
                !it.done(),
                forall|k: K| it.before_end(k),
                0 <= it.pos() <= e.len(),
                it.pos() == 0 ==> last is None,
                it.pos() > 0 ==> last is Some && *last.unwrap().0 == e[it.pos() - 1].0 && *last.unwrap().1 == e[it.pos() - 1].1,
            decreases e.len() - it.pos(),
        {
            match it.next() {
                Some(item) => {
                    last = Some(item);
                    proof {
                        it.lemma_pos_bounded();
                    }
                },
                None => {
                    return last;
                },
            }
        }
    }

    /// The start and end positions of a range, each a leaf and an index in
    /// it: for a bounded side the leaf reached by descending toward the key
    /// and the key's place in it; for an open start the first position, for
    /// an open end the last key of the last leaf.
    pub fn optimize_range_query(&self, start: KeyBound<K>, end: KeyBound<K>) -> (r: Option<(NodeId, usize, NodeId, usize)>)
        requires
            self.wf(),
        ensures
            r is Some,
            ({
                let (s_id, s_idx, e_id, e_idx) = r.unwrap();
                let l = leaf_seq(self.views(), self.root, self.height@);
                &&& match start {
                    KeyBound::Included(k) => s_id == descend_leaf(self.views(), self.root, self.height@, k)
                        && is_lower_index(self.leaf_arena@[s_id].keys@, k, s_idx as int),
                    KeyBound::Excluded(k) => s_id == descend_leaf(self.views(), self.root, self.height@, k)
                        && is_lower_index(self.leaf_arena@[s_id].keys@, k, s_idx as int),
                    KeyBound::Unbounded => s_id == l[0] && s_idx == 0,
                }
                &&& match end {
                    KeyBound::Included(k) => e_id == descend_leaf(self.views(), self.root, self.height@, k)
                        && is_lower_index(self.leaf_arena@[e_id].keys@, k, e_idx as int),
                    KeyBound::Excluded(k) => e_id == descend_leaf(self.views(), self.root, self.height@, k)
                        && is_lower_index(self.leaf_arena@[e_id].keys@, k, e_idx as int),
                    KeyBound::Unbounded => {
                        let n = self.leaf_arena@[l.last()].keys@.len();
                        e_id == l.last() && e_idx == (if n == 0 { 0 } else { n - 1 })
                    },
                }
            }),
    {
        let start_pos = match start {
            KeyBound::Included(key) => self.find_leaf_for_key(&key),
            KeyBound::Excluded(key) => self.find_leaf_for_key(&key),
            KeyBound::Unbounded => match self.get_first_leaf_id() {
                Some(first_leaf) => Some((first_leaf, 0usize)),
                None => None,
            },
        };
        let start_pos = match start_pos {
            Some(p) => p,
            None => {
                return None;
            },
        };
        let end_pos = match end {
            KeyBound::Included(key) => self.find_leaf_for_key(&key),
            KeyBound::Excluded(key) => self.find_leaf_for_key(&key),
            KeyBound::Unbounded => self.find_last_leaf_position(),
        };
        let end_pos = match end_pos {
            Some(p) => p,
            None => {
                return None;
            },
        };
        proof {
            match start {
                KeyBound::Included(k) => {
                    let kk = choose|kk: int| self.range_start(kk, start_pos.0, start_pos.1, k);
                    assert(self.range_start(kk, start_pos.0, start_pos.1, k));
                },
                KeyBound::Excluded(k) => {
                    let kk = choose|kk: int| self.range_start(kk, start_pos.0, start_pos.1, k);
                    assert(self.range_start(kk, start_pos.0, start_pos.1, k));
                },
                KeyBound::Unbounded => {},
            }
            match end {
                KeyBound::Included(k) => {
                    let kk = choose|kk: int| self.range_start(kk, end_pos.0, end_pos.1, k);
                    assert(self.range_start(kk, end_pos.0, end_pos.1, k));
                },
                KeyBound::Excluded(k) => {
                    let kk = choose|kk: int| self.range_start(kk, end_pos.0, end_pos.1, k);
                    assert(self.range_start(kk, end_pos.0, end_pos.1, k));
                },
                KeyBound::Unbounded => {
                    let l = leaf_seq(self.views(), self.root, self.height@);
                    let keys = self.leaf_arena@[l.last()].keys;
                    assert(keys@.len() == keys.len());
                },
            }
        }
        Some((start_pos.0, start_pos.1, end_pos.0, end_pos.1))
    }

    /// A rough size of a range without walking it: the number of items for
    /// an unbounded range, a quarter of it otherwise.
    pub fn estimate_range_size(&self, start: KeyBound<K>, end: KeyBound<K>) -> (r: usize)
        requires
            self.wf(),
            self.entries().len() <= usize::MAX,
        ensures
            r == (if start is Unbounded && end is Unbounded {
                self.entries().len()
            } else {
                self.entries().len() / 4
            }),
    {
        match (start, end) {
            (KeyBound::Unbounded, KeyBound::Unbounded) => self.len(),
            _ => self.len() / 4,
        }
    }
}

} // verus!
