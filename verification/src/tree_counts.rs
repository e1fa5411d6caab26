//! The leaves and branches of a well-formed subtree are distinct nodes of
//! the arenas, so there are never more of them than arena slots.
use crate::tree_spec::{
    child_after, child_hi, child_lo, children_disjoint, in_tree, leaf_seq, leaf_seqs_of, lemma_child_in_tree,
    lemma_children_contents, lemma_wf_basic, lemma_wf_branch_unfold, wf_node, NodeViews,
};
use crate::tree_structure::{branch_total, children_branch_total};
use crate::tree::BPlusTreeMap;
use crate::types::{branch_ref, leaf_ref, NodeId, NodeRef, TreeKey, NULL_NODE};
use vstd::prelude::*;

verus! {

/// The ids of the branches of a subtree, each before those below it.
pub open spec fn branch_ids<K, V>(ns: NodeViews<K, V>, n: NodeRef<K, V>, h: nat) -> Seq<NodeId>
    decreases h, 0nat,
{
    match n {
        NodeRef::Leaf(_, _) => Seq::empty(),
        NodeRef::Branch(id, _) => if h > 0 && ns.branches.contains_key(id) {
            seq![id] + children_branch_ids(ns, ns.branches[id].children, (h - 1) as nat)
        } else {
            Seq::empty()
        },
    }
}

/// The ids of the branches of a sequence of subtrees, in order.
pub open spec fn children_branch_ids<K, V>(ns: NodeViews<K, V>, cs: Seq<NodeRef<K, V>>, h: nat) -> Seq<NodeId>
    decreases h, cs.len() + 1,
{
    if cs.len() == 0 {
        Seq::empty()
    } else {
        children_branch_ids(ns, cs.drop_last(), h) + branch_ids(ns, cs.last(), h)
    }
}

/// Joining two sequences without repeats that share nothing repeats
/// nothing.
proof fn lemma_no_dup_concat<A>(a: Seq<A>, b: Seq<A>)
    requires
        a.no_duplicates(),
        b.no_duplicates(),
        forall|x: A| a.contains(x) ==> !b.contains(x),
    ensures
        (a + b).no_duplicates(),
{
    let c = a + b;
    assert forall|i: int, j: int| 0 <= i < c.len() && 0 <= j < c.len() && i != j implies c[i] != c[j] by {
        if i < a.len() && j >= a.len() {
            assert(a.contains(c[i]));
            assert(b.contains(c[j]) && c[j] == b[j - a.len()]);
        } else if j < a.len() && i >= a.len() {
            assert(a.contains(c[j]));
            assert(b[i - a.len()] == c[i]);
        }
    }
}

/// Members of a concatenation come from one of its parts.
proof fn lemma_concat_contains<A>(a: Seq<A>, b: Seq<A>, x: A)
    ensures
        (a + b).contains(x) <==> a.contains(x) || b.contains(x),
{
    if (a + b).contains(x) {
        let i = choose|i: int| 0 <= i < (a + b).len() && (a + b)[i] == x;
        if i >= a.len() {
            assert(b[i - a.len()] == x);
        }
    }
    if b.contains(x) {
        let i = choose|i: int| 0 <= i < b.len() && b[i] == x;
        assert((a + b)[a.len() + i] == x);
    }
    if a.contains(x) {
        let i = choose|i: int| 0 <= i < a.len() && a[i] == x;
        assert((a + b)[i] == x);
    }
}

/// Each leaf of a subtree, and each of its branches, lies in it.
proof fn lemma_members_in_tree<K, V>(ns: NodeViews<K, V>, n: NodeRef<K, V>, h: nat)
    ensures
        forall|x: NodeId| #[trigger] leaf_seq(ns, n, h).contains(x) ==> in_tree(ns, n, h, leaf_ref::<K, V>(x)),
        forall|x: NodeId| #[trigger] branch_ids(ns, n, h).contains(x) ==> in_tree(ns, n, h, branch_ref::<K, V>(x))
            && ns.branches.contains_key(x),
    decreases h,
{
    match n {
        NodeRef::Leaf(id, _) => {
            assert forall|x: NodeId| #[trigger] leaf_seq(ns, n, h).contains(x) implies in_tree(ns, n, h, leaf_ref::<K, V>(x)) by {
                assert(leaf_seq(ns, n, h)[0] == id);
                assert(leaf_ref::<K, V>(x) == n);
            }
        },
        NodeRef::Branch(id, _) => {
            if h > 0 && ns.branches.contains_key(id) {
                let cs = ns.branches[id].children;
                let ch = (h - 1) as nat;
                lemma_children_contents(ns, cs, ch);
                assert forall|i: int| #![trigger cs[i]] 0 <= i < cs.len() implies {
                    &&& forall|x: NodeId| #[trigger] leaf_seq(ns, cs[i], ch).contains(x) ==> in_tree(ns, cs[i], ch, leaf_ref::<K, V>(x))
                    &&& forall|x: NodeId| #[trigger] branch_ids(ns, cs[i], ch).contains(x) ==> in_tree(ns, cs[i], ch, branch_ref::<K, V>(x))
                        && ns.branches.contains_key(x)
                } by {
                    lemma_members_in_tree(ns, cs[i], ch);
                }
                assert forall|x: NodeId| #[trigger] leaf_seq(ns, n, h).contains(x) implies in_tree(ns, n, h, leaf_ref::<K, V>(x)) by {
                    crate::flatten::lemma_flatten_contains(leaf_seqs_of(ns, cs, ch), x);
                    let i = choose|i: int| 0 <= i < leaf_seqs_of(ns, cs, ch).len() && #[trigger] leaf_seqs_of(ns, cs, ch)[i].contains(x);
                    assert(leaf_seq(ns, cs[i], ch).contains(x));
                    lemma_child_in_tree(ns, n, h, i, leaf_ref::<K, V>(x));
                }
                assert forall|x: NodeId| #[trigger] branch_ids(ns, n, h).contains(x) implies in_tree(ns, n, h, branch_ref::<K, V>(x))
                    && ns.branches.contains_key(x) by {
                    lemma_concat_contains(seq![id], children_branch_ids(ns, cs, ch), x);
                    if x == id {
                        assert(branch_ref::<K, V>(x) == n);
                    } else {
                        assert(!seq![id].contains(x));
                        lemma_children_ids_full(ns, cs, ch);
                        lemma_children_ids_from(ns, cs, ch, cs.len() as int, x);
                        let i = choose|i: int| 0 <= i < cs.len() && #[trigger] branch_ids(ns, cs[i], ch).contains(x);
                        lemma_child_in_tree(ns, n, h, i, branch_ref::<K, V>(x));
                    }
                }
            }
        },
    }
}

/// A branch id among those of the first `k` children is one of a child.
proof fn lemma_children_ids_from<K, V>(ns: NodeViews<K, V>, cs: Seq<NodeRef<K, V>>, h: nat, k: int, x: NodeId)
    requires
        0 <= k <= cs.len(),
        children_branch_ids(ns, cs.subrange(0, k), h).contains(x),
    ensures
        exists|i: int| 0 <= i < k && #[trigger] branch_ids(ns, cs[i], h).contains(x),
    decreases k,
{
    let p = cs.subrange(0, k);
    if k == 0 {
        assert(p.len() == 0);
    } else {
        assert(p.drop_last() =~= cs.subrange(0, k - 1));
        lemma_concat_contains(children_branch_ids(ns, p.drop_last(), h), branch_ids(ns, p.last(), h), x);
        if branch_ids(ns, cs[k - 1], h).contains(x) {
        } else {
            lemma_children_ids_from(ns, cs, h, k - 1, x);
        }
    }
    if k == cs.len() {
        assert(p =~= cs);
    }
}

/// The branch ids of the whole are those of the first `k` children for
/// `k` the number of children.
proof fn lemma_children_ids_full<K, V>(ns: NodeViews<K, V>, cs: Seq<NodeRef<K, V>>, h: nat)
    ensures
        children_branch_ids(ns, cs.subrange(0, cs.len() as int), h) == children_branch_ids(ns, cs, h),
{
    assert(cs.subrange(0, cs.len() as int) =~= cs);
}

/// Sequences of parts without repeats, no two sharing an element, flatten
/// to a sequence without repeats.
proof fn lemma_flatten_no_dup<A>(ss: Seq<Seq<A>>)
    requires
        forall|i: int| 0 <= i < ss.len() ==> (#[trigger] ss[i]).no_duplicates(),
        forall|i: int, j: int, x: A| 0 <= i < j < ss.len() && #[trigger] ss[i].contains(x) ==> !#[trigger] ss[j].contains(x),
    ensures
        ss.flatten().no_duplicates(),
    decreases ss.len(),
{
    if ss.len() > 0 {
        let d = ss.drop_last();
        lemma_flatten_no_dup(d);
        crate::flatten::lemma_flatten_add(d, seq![ss.last()]);
        crate::flatten::lemma_flatten_one(ss.last());
        assert(ss =~= d + seq![ss.last()]);
        assert forall|x: A| d.flatten().contains(x) implies !ss.last().contains(x) by {
            crate::flatten::lemma_flatten_contains(d, x);
            let i = choose|i: int| 0 <= i < d.len() && #[trigger] d[i].contains(x);
            assert(ss[i] == d[i]);
        }
        lemma_no_dup_concat(d.flatten(), ss.last());
    }
}

/// Branch ids of the first `k` children, children sharing no node and
/// each without repeats, have no repeats.
proof fn lemma_children_ids_no_dup<K, V>(ns: NodeViews<K, V>, cs: Seq<NodeRef<K, V>>, h: nat, k: int)
    requires
        0 <= k <= cs.len(),
        children_disjoint(ns, cs, h),
        forall|i: int| 0 <= i < cs.len() ==> (#[trigger] branch_ids(ns, cs[i], h)).no_duplicates(),
        forall|i: int, x: NodeId| 0 <= i < cs.len() && #[trigger] branch_ids(ns, cs[i], h).contains(x) ==> in_tree(
            ns,
            cs[i],
            h,
            branch_ref::<K, V>(x),
        ),
    ensures
        children_branch_ids(ns, cs.subrange(0, k), h).no_duplicates(),
    decreases k,
{
    let p = cs.subrange(0, k);
    if k > 0 {
        assert(p.drop_last() =~= cs.subrange(0, k - 1));
        lemma_children_ids_no_dup(ns, cs, h, k - 1);
        let a = children_branch_ids(ns, cs.subrange(0, k - 1), h);
        let b = branch_ids(ns, cs[k - 1], h);
        assert forall|x: NodeId| a.contains(x) implies !b.contains(x) by {
            lemma_children_ids_from(ns, cs, h, k - 1, x);
            let i = choose|i: int| 0 <= i < k - 1 && #[trigger] branch_ids(ns, cs[i], h).contains(x);
            if b.contains(x) {
                assert(in_tree(ns, cs[i], h, branch_ref::<K, V>(x)));
                assert(in_tree(ns, cs[k - 1], h, branch_ref::<K, V>(x)));
            }
        }
        lemma_no_dup_concat(a, b);
    }
}

/// The branch ids of a subtree number its branches.
proof fn lemma_branch_ids_len<K, V>(ns: NodeViews<K, V>, n: NodeRef<K, V>, h: nat)
    ensures
        branch_ids(ns, n, h).len() == branch_total(ns, n, h),
    decreases h, 0nat,
{
    match n {
        NodeRef::Leaf(_, _) => {},
        NodeRef::Branch(id, _) => {
            if h > 0 && ns.branches.contains_key(id) {
                lemma_children_ids_len(ns, ns.branches[id].children, (h - 1) as nat);
            }
        },
    }
}

/// The branch ids of a sequence of subtrees number their branches.
proof fn lemma_children_ids_len<K, V>(ns: NodeViews<K, V>, cs: Seq<NodeRef<K, V>>, h: nat)
    ensures
        children_branch_ids(ns, cs, h).len() == children_branch_total(ns, cs, h),
    decreases h, cs.len() + 1,
{
    if cs.len() > 0 {
        lemma_children_ids_len(ns, cs.drop_last(), h);
        lemma_branch_ids_len(ns, cs.last(), h);
    }
}

/// The leaves of a well-formed subtree are distinct, and so are its
/// branches.
pub proof fn lemma_distinct_nodes<K: TreeKey, V>(
    ns: NodeViews<K, V>,
    n: NodeRef<K, V>,
    h: nat,
    lo: Option<int>,
    hi: Option<int>,
    after: NodeId,
)
    requires
        wf_node(ns, n, h, lo, hi, after),
    ensures
        leaf_seq(ns, n, h).no_duplicates(),
        branch_ids(ns, n, h).no_duplicates(),
        branch_ids(ns, n, h).len() == branch_total(ns, n, h),
        forall|x: NodeId| #[trigger] branch_ids(ns, n, h).contains(x) ==> ns.branches.contains_key(x),
    decreases h,
{
    lemma_wf_basic(ns, n, h, lo, hi, after);
    lemma_members_in_tree(ns, n, h);
    lemma_branch_ids_len(ns, n, h);
    match n {
        NodeRef::Leaf(_, _) => {},
        NodeRef::Branch(id, _) => {
            lemma_wf_branch_unfold(ns, n, h, lo, hi, after);
            let b = ns.branches[id];
            let cs = b.children;
            let ch = (h - 1) as nat;
            lemma_children_contents(ns, cs, ch);
            assert forall|i: int| #![trigger cs[i]] 0 <= i < cs.len() implies {
                &&& leaf_seq(ns, cs[i], ch).no_duplicates()
                &&& branch_ids(ns, cs[i], ch).no_duplicates()
                &&& forall|x: NodeId| #[trigger] leaf_seq(ns, cs[i], ch).contains(x) ==> in_tree(ns, cs[i], ch, leaf_ref::<K, V>(x))
                &&& forall|x: NodeId| #[trigger] branch_ids(ns, cs[i], ch).contains(x) ==> in_tree(ns, cs[i], ch, branch_ref::<K, V>(x))
            } by {
                assert(wf_node(ns, cs[i], ch, child_lo(b.keys, i, lo), child_hi(b.keys, i, hi), child_after(ns, cs, i, ch, after)));
                lemma_distinct_nodes(ns, cs[i], ch, child_lo(b.keys, i, lo), child_hi(b.keys, i, hi), child_after(ns, cs, i, ch, after));
                lemma_members_in_tree(ns, cs[i], ch);
            }
            assert forall|i: int| 0 <= i < cs.len() implies (#[trigger] branch_ids(ns, cs[i], ch)).no_duplicates() by {
                assert(cs[i] == cs[i]);
            }
            assert forall|i: int, x: NodeId| 0 <= i < cs.len() && #[trigger] branch_ids(ns, cs[i], ch).contains(x) implies in_tree(
                ns,
                cs[i],
                ch,
                branch_ref::<K, V>(x),
            ) by {
                assert(cs[i] == cs[i]);
            }
            let ls = leaf_seqs_of(ns, cs, ch);
            assert forall|i: int, j: int, x: NodeId| 0 <= i < j < ls.len() && #[trigger] ls[i].contains(x) implies !#[trigger] ls[j].contains(x) by {
                assert(ls[i] == leaf_seq(ns, cs[i], ch));
                assert(ls[j] == leaf_seq(ns, cs[j], ch));
                if ls[j].contains(x) {
                    assert(in_tree(ns, cs[i], ch, leaf_ref::<K, V>(x)));
                    assert(in_tree(ns, cs[j], ch, leaf_ref::<K, V>(x)));
                }
            }
            assert forall|i: int| 0 <= i < ls.len() implies (#[trigger] ls[i]).no_duplicates() by {
                assert(ls[i] == leaf_seq(ns, cs[i], ch));
            }
            lemma_flatten_no_dup(ls);
            lemma_children_ids_no_dup(ns, cs, ch, cs.len() as int);
            lemma_children_ids_full(ns, cs, ch);
            let c = children_branch_ids(ns, cs, ch);
            assert forall|x: NodeId| seq![id].contains(x) implies !c.contains(x) by {
                if c.contains(x) {
                    assert(x == id);
                    lemma_children_ids_from(ns, cs, ch, cs.len() as int, x);
                    let i = choose|i: int| 0 <= i < cs.len() && #[trigger] branch_ids(ns, cs[i], ch).contains(x);
                    assert(in_tree(ns, cs[i], ch, branch_ref::<K, V>(x)));
                    assert(branch_ref::<K, V>(x) == n);
                }
            }
            lemma_no_dup_concat(seq![id], c);
        },
    }
}


impl<K: TreeKey, V> BPlusTreeMap<K, V> {
    /// The leaves and branches of a well-formed tree are distinct arena
    /// nodes: there are no more of them than arena slots, and no more slots
    /// than ids.
    pub proof fn lemma_node_counts(&self)
        requires
            self.wf(),
        ensures
            leaf_seq(self.views(), self.root, self.height@).len() <= self.leaf_arena.slot_count(),
            branch_total(self.views(), self.root, self.height@) <= self.branch_arena.slot_count(),
            self.leaf_arena.slot_count() <= NULL_NODE,
            self.branch_arena.slot_count() <= NULL_NODE,
    {
        let ns = self.views();
        let h = self.height@;
        lemma_distinct_nodes(ns, self.root, h, None, None, NULL_NODE);
        crate::leaf_chain::lemma_leaf_chain(ns, self.root, h, None, None, NULL_NODE);
        let l = leaf_seq(ns, self.root, h);
        assert forall|i: int| 0 <= i < l.len() implies (#[trigger] l[i] as int) < self.leaf_arena.slot_count() by {
            assert(ns.leaves.contains_key(l[i]));
            self.leaf_arena.lemma_ids_below_slots(l[i]);
        }
        crate::arena::lemma_distinct_below(l, self.leaf_arena.slot_count());
        let b = branch_ids(ns, self.root, h);
        assert forall|i: int| 0 <= i < b.len() implies (#[trigger] b[i] as int) < self.branch_arena.slot_count() by {
            assert(b.contains(b[i]));
            assert(ns.branches.contains_key(b[i]));
            self.branch_arena.lemma_ids_below_slots(b[i]);
        }
        crate::arena::lemma_distinct_below(b, self.branch_arena.slot_count());
        self.leaf_arena.lemma_slots_bounded();
        self.branch_arena.lemma_slots_bounded();
    }
}

/// A branch id of child `i` is among those of the first `k` children when
/// `i` is below `k`.
proof fn lemma_children_ids_to<K, V>(ns: NodeViews<K, V>, cs: Seq<NodeRef<K, V>>, h: nat, k: int, i: int, x: NodeId)
    requires
        0 <= i < k <= cs.len(),
        branch_ids(ns, cs[i], h).contains(x),
    ensures
        children_branch_ids(ns, cs.subrange(0, k), h).contains(x),
    decreases k,
{
    let p = cs.subrange(0, k);
    assert(p.drop_last() =~= cs.subrange(0, k - 1));
    assert(p.last() == cs[k - 1]);
    if i < k - 1 {
        lemma_children_ids_to(ns, cs, h, k - 1, i, x);
    }
    lemma_concat_contains(children_branch_ids(ns, p.drop_last(), h), branch_ids(ns, p.last(), h), x);
}

/// Each node of a well-formed subtree is among its leaves or its branch ids.
proof fn lemma_tree_members<K: TreeKey, V>(
    ns: NodeViews<K, V>,
    n: NodeRef<K, V>,
    h: nat,
    lo: Option<int>,
    hi: Option<int>,
    after: NodeId,
)
    requires
        wf_node(ns, n, h, lo, hi, after),
    ensures
        forall|x: NodeId| #[trigger] in_tree(ns, n, h, leaf_ref::<K, V>(x)) ==> leaf_seq(ns, n, h).contains(x),
        forall|x: NodeId| #[trigger] in_tree(ns, n, h, branch_ref::<K, V>(x)) ==> branch_ids(ns, n, h).contains(x),
    decreases h,
{
    lemma_wf_basic(ns, n, h, lo, hi, after);
    match n {
        NodeRef::Leaf(id, _) => {
            assert forall|x: NodeId| #[trigger] in_tree(ns, n, h, leaf_ref::<K, V>(x)) implies leaf_seq(ns, n, h).contains(x) by {
                assert(leaf_seq(ns, n, h)[0] == id);
            }
        },
        NodeRef::Branch(id, _) => {
            let b = ns.branches[id];
            let cs = b.children;
            let ch = (h - 1) as nat;
            lemma_wf_branch_unfold(ns, n, h, lo, hi, after);
            crate::tree_spec::lemma_wf_first_children(ns, b.keys, cs, ch, lo, hi, after, cs.len());
            lemma_children_contents(ns, cs, ch);
            assert forall|i: int| #![trigger cs[i]] 0 <= i < cs.len() implies {
                &&& forall|x: NodeId| #[trigger] in_tree(ns, cs[i], ch, leaf_ref::<K, V>(x)) ==> leaf_seq(ns, cs[i], ch).contains(x)
                &&& forall|x: NodeId| #[trigger] in_tree(ns, cs[i], ch, branch_ref::<K, V>(x)) ==> branch_ids(ns, cs[i], ch).contains(x)
            } by {
                assert(wf_node(ns, cs[i], ch, child_lo(b.keys, i, lo), child_hi(b.keys, i, hi),
                    child_after(ns, cs, i, ch, after)));
                lemma_tree_members(ns, cs[i], ch, child_lo(b.keys, i, lo), child_hi(b.keys, i, hi),
                    child_after(ns, cs, i, ch, after));
            }
            assert forall|x: NodeId| #[trigger] in_tree(ns, n, h, leaf_ref::<K, V>(x)) implies leaf_seq(ns, n, h).contains(x) by {
                crate::tree_spec::lemma_in_tree_unfold(ns, n, h, leaf_ref::<K, V>(x));
                let i = choose|i: int| 0 <= i < cs.len() && #[trigger] in_tree(ns, cs[i], ch, leaf_ref::<K, V>(x));
                assert(leaf_seq(ns, cs[i], ch).contains(x));
                assert(leaf_seqs_of(ns, cs, ch)[i].contains(x));
                crate::flatten::lemma_flatten_contains(leaf_seqs_of(ns, cs, ch), x);
            }
            assert forall|x: NodeId| #[trigger] in_tree(ns, n, h, branch_ref::<K, V>(x)) implies branch_ids(ns, n, h).contains(x) by {
                crate::tree_spec::lemma_in_tree_unfold(ns, n, h, branch_ref::<K, V>(x));
                lemma_concat_contains(seq![id], children_branch_ids(ns, cs, ch), x);
                if branch_ref::<K, V>(x) == n {
                    assert(seq![id][0] == x);
                    assert(seq![id].contains(x));
                } else {
                    let i = choose|i: int| 0 <= i < cs.len() && #[trigger] in_tree(ns, cs[i], ch, branch_ref::<K, V>(x));
                    assert(branch_ids(ns, cs[i], ch).contains(x));
                    lemma_children_ids_to(ns, cs, ch, cs.len() as int, i, x);
                    lemma_children_ids_full(ns, cs, ch);
                }
            }
        },
    }
}

/// A sequence without repeats whose members all lie in a finite set is as
/// long as the set exactly when it holds every member of the set.
proof fn lemma_seq_fills_set<A>(s: Seq<A>, d: Set<A>)
    requires
        s.no_duplicates(),
        d.finite(),
        forall|x: A| #[trigger] s.contains(x) ==> d.contains(x),
    ensures
        (s.len() == d.len()) <==> (forall|x: A| #[trigger] d.contains(x) ==> s.contains(x)),
{
    s.unique_seq_to_set();
    let t = s.to_set();
    assert(t.subset_of(d));
    vstd::set_lib::lemma_len_subset(t, d);
    if forall|x: A| #[trigger] d.contains(x) ==> s.contains(x) {
        assert(t =~= d);
    }
    if s.len() == d.len() {
        assert forall|x: A| #[trigger] d.contains(x) implies s.contains(x) by {
            if !s.contains(x) {
                assert(t.subset_of(d.remove(x)));
                vstd::set_lib::lemma_len_subset(t, d.remove(x));
            }
        }
    }
}

impl<K: TreeKey, V> BPlusTreeMap<K, V> {
    /// Every node in the arenas lies in the tree.
    pub open spec fn no_stray_nodes(&self) -> bool {
        forall|x: NodeRef<K, V>| #[trigger] self.views().has(x) ==> in_tree(self.views(), self.root, self.height@, x)
    }

    /// The arenas hold as many nodes as the tree exactly when every node in
    /// them lies in the tree.
    pub proof fn lemma_arenas_match_iff(&self)
        requires
            self.wf(),
        ensures
            self.arenas_match_tree() <==> self.no_stray_nodes(),
    {
        let ns = self.views();
        let h = self.height@;
        let r = self.root;
        lemma_distinct_nodes(ns, r, h, None, None, NULL_NODE);
        lemma_members_in_tree(ns, r, h);
        lemma_tree_members(ns, r, h, None, None, NULL_NODE);
        lemma_wf_basic(ns, r, h, None, None, NULL_NODE);
        self.leaf_arena.lemma_live_count();
        self.branch_arena.lemma_live_count();
        let l = leaf_seq(ns, r, h);
        let bs = branch_ids(ns, r, h);
        assert(ns.leaves.dom() =~= self.leaf_arena@.dom());
        assert(ns.branches.dom() =~= self.branch_arena@.dom());
        assert forall|x: NodeId| #[trigger] l.contains(x) implies ns.leaves.dom().contains(x) by {
            assert(in_tree(ns, r, h, leaf_ref::<K, V>(x)));
            assert(ns.has(leaf_ref::<K, V>(x)));
        }
        lemma_seq_fills_set(l, ns.leaves.dom());
        lemma_seq_fills_set(bs, ns.branches.dom());
        if self.no_stray_nodes() {
            assert forall|x: NodeId| #[trigger] ns.leaves.dom().contains(x) implies l.contains(x) by {
                assert(ns.has(leaf_ref::<K, V>(x)));
            }
            assert forall|x: NodeId| #[trigger] ns.branches.dom().contains(x) implies bs.contains(x) by {
                assert(ns.has(branch_ref::<K, V>(x)));
            }
        }
        if self.arenas_match_tree() {
            assert forall|x: NodeRef<K, V>| #[trigger] ns.has(x) implies in_tree(ns, r, h, x) by {
                match x {
                    NodeRef::Leaf(id, _) => {
                        assert(ns.leaves.dom().contains(id));
                        assert(l.contains(id));
                        assert(x == leaf_ref::<K, V>(id));
                    },
                    NodeRef::Branch(id, _) => {
                        assert(ns.branches.dom().contains(id));
                        assert(bs.contains(id));
                        assert(x == branch_ref::<K, V>(id));
                    },
                }
            }
        }
    }
}

/// The leaves and the branch count of a subtree depend on the branches
/// alone.
pub proof fn lemma_shape_from_branches<K, V>(ns0: NodeViews<K, V>, ns1: NodeViews<K, V>, n: NodeRef<K, V>, h: nat)
    requires
        ns0.branches == ns1.branches,
    ensures
        leaf_seq(ns0, n, h) == leaf_seq(ns1, n, h),
        branch_total(ns0, n, h) == branch_total(ns1, n, h),
    decreases h, 0nat,
{
    match n {
        NodeRef::Leaf(_, _) => {},
        NodeRef::Branch(id, _) => {
            if h > 0 && ns0.branches.contains_key(id) {
                lemma_children_shape_from_branches(ns0, ns1, ns0.branches[id].children, (h - 1) as nat);
            }
        },
    }
}

/// The leaves and branch counts of a sequence of subtrees depend on the
/// branches alone.
proof fn lemma_children_shape_from_branches<K, V>(
    ns0: NodeViews<K, V>,
    ns1: NodeViews<K, V>,
    cs: Seq<NodeRef<K, V>>,
    h: nat,
)
    requires
        ns0.branches == ns1.branches,
    ensures
        leaf_seqs_of(ns0, cs, h) == leaf_seqs_of(ns1, cs, h),
        children_branch_total(ns0, cs, h) == children_branch_total(ns1, cs, h),
    decreases h, cs.len() + 1,
{
    if cs.len() > 0 {
        lemma_children_shape_from_branches(ns0, ns1, cs.drop_last(), h);
        lemma_shape_from_branches(ns0, ns1, cs.last(), h);
    }
}

/// Any views with the same branches give a subtree the same leaves and
/// branch count.
pub proof fn lemma_shape_same_branches<K, V>(ns0: NodeViews<K, V>, n: NodeRef<K, V>, h: nat)
    ensures
        forall|ns1: NodeViews<K, V>|
            #![trigger leaf_seq(ns1, n, h)]
            #![trigger branch_total(ns1, n, h)]
            ns1.branches == ns0.branches ==> leaf_seq(ns1, n, h) == leaf_seq(ns0, n, h) && branch_total(ns1, n, h)
                == branch_total(ns0, n, h),
{
    assert forall|ns1: NodeViews<K, V>|
        #![trigger leaf_seq(ns1, n, h)]
        #![trigger branch_total(ns1, n, h)]
        ns1.branches == ns0.branches implies leaf_seq(ns1, n, h) == leaf_seq(ns0, n, h) && branch_total(ns1, n, h)
            == branch_total(ns0, n, h) by {
        lemma_shape_from_branches(ns0, ns1, n, h);
    }
}

} // verus!
