//! The shape that the arena trees keep: node views by id, the well-formedness
//! of a subtree (sorted keys within the separator bounds, children of one
//! height, disjoint subtrees, leaves chained in key order) and the entries a
//! subtree holds.
use crate::flatten::{lemma_flatten_contains, lemma_flatten_sorted, parts_separated};
use crate::sorted::{child_pos, entries_sorted, lemma_child_pos_exists, has_key, is_child_pos, keys_sorted, zip_entries};
use crate::types::{NodeId, NodeRef, TreeKey};
use vstd::prelude::*;

verus! {

/// What the tree logic reads of a leaf.
pub struct LeafView<K, V> {
    pub keys: Seq<K>,
    pub values: Seq<V>,
    pub next: NodeId,
}

/// What the tree logic reads of a branch.
pub struct BranchView<K, V> {
    pub keys: Seq<K>,
    pub children: Seq<NodeRef<K, V>>,
}

/// The nodes of a tree, by id, as the tree logic sees them.
pub struct NodeViews<K, V> {
    pub leaves: Map<NodeId, LeafView<K, V>>,
    pub branches: Map<NodeId, BranchView<K, V>>,
}

impl<K, V> NodeViews<K, V> {
    /// The node that `n` refers to exists.
    pub open spec fn has(self, n: NodeRef<K, V>) -> bool {
        match n {
            NodeRef::Leaf(id, _) => self.leaves.contains_key(id),
            NodeRef::Branch(id, _) => self.branches.contains_key(id),
        }
    }

    /// Both views agree on the node that `n` refers to.
    pub open spec fn same_node(self, other: Self, n: NodeRef<K, V>) -> bool {
        match n {
            NodeRef::Leaf(id, _) => self.leaves.contains_key(id) == other.leaves.contains_key(id)
                && (self.leaves.contains_key(id) ==> self.leaves[id] == other.leaves[id]),
            NodeRef::Branch(id, _) => self.branches.contains_key(id)
                == other.branches.contains_key(id) && (self.branches.contains_key(id)
                ==> self.branches[id] == other.branches[id]),
        }
    }
}

/// A rank within optional bounds: at least `lo`, below `hi`.
pub open spec fn rank_in(r: int, lo: Option<int>, hi: Option<int>) -> bool {
    &&& (lo matches Some(l) ==> l <= r)
    &&& (hi matches Some(u) ==> r < u)
}

/// All keys within the bounds.
pub open spec fn keys_in<K: TreeKey>(s: Seq<K>, lo: Option<int>, hi: Option<int>) -> bool {
    forall|i: int| 0 <= i < s.len() ==> rank_in(#[trigger] s[i].rank(), lo, hi)
}

/// All entries' keys within the bounds.
pub open spec fn entries_in<K: TreeKey, V>(s: Seq<(K, V)>, lo: Option<int>, hi: Option<int>) -> bool {
    forall|i: int| 0 <= i < s.len() ==> rank_in(#[trigger] s[i].0.rank(), lo, hi)
}

/// The first key lies strictly above the lower bound, so that no key of a
/// branch equals the bound it inherits.
pub open spec fn first_above<K: TreeKey>(keys: Seq<K>, lo: Option<int>) -> bool {
    lo matches Some(l) ==> (keys.len() > 0 ==> l < keys[0].rank())
}

/// Lower bound of child `i` of a branch with separators `keys`.
pub open spec fn child_lo<K: TreeKey>(keys: Seq<K>, i: int, lo: Option<int>) -> Option<int> {
    if i == 0 {
        lo
    } else {
        Some(keys[i - 1].rank())
    }
}

/// Upper bound of child `i` of a branch with separators `keys`.
pub open spec fn child_hi<K: TreeKey>(keys: Seq<K>, i: int, hi: Option<int>) -> Option<int> {
    if i == keys.len() {
        hi
    } else {
        Some(keys[i].rank())
    }
}

/// The entries of a leaf.
pub open spec fn leaf_entries<K, V>(l: LeafView<K, V>) -> Seq<(K, V)> {
    zip_entries(l.keys, l.values)
}

/// The leaves of a subtree, left to right.
pub open spec fn leaf_seq<K, V>(ns: NodeViews<K, V>, n: NodeRef<K, V>, h: nat) -> Seq<NodeId>
    decreases h, 0nat,
{
    match n {
        NodeRef::Leaf(id, _) => seq![id],
        NodeRef::Branch(id, _) => if h > 0 && ns.branches.contains_key(id) {
            leaf_seqs_of(ns, ns.branches[id].children, (h - 1) as nat).flatten()
        } else {
            Seq::empty()
        },
    }
}

/// The leaf sequences of a sequence of subtrees, one per subtree.
pub open spec fn leaf_seqs_of<K, V>(ns: NodeViews<K, V>, cs: Seq<NodeRef<K, V>>, h: nat) -> Seq<
    Seq<NodeId>,
>
    decreases h, cs.len() + 1,
{
    if cs.len() == 0 {
        Seq::empty()
    } else {
        leaf_seqs_of(ns, cs.drop_last(), h).push(leaf_seq(ns, cs.last(), h))
    }
}

/// The leaves under a sequence of children, left to right.
pub open spec fn children_leaf_seq<K, V>(
    ns: NodeViews<K, V>,
    cs: Seq<NodeRef<K, V>>,
    h: nat,
) -> Seq<NodeId> {
    leaf_seqs_of(ns, cs, h).flatten()
}

/// The entries of a subtree, in key order.
pub open spec fn content<K, V>(ns: NodeViews<K, V>, n: NodeRef<K, V>, h: nat) -> Seq<(K, V)>
    decreases h, 0nat,
{
    match n {
        NodeRef::Leaf(id, _) => if ns.leaves.contains_key(id) {
            leaf_entries(ns.leaves[id])
        } else {
            Seq::empty()
        },
        NodeRef::Branch(id, _) => if h > 0 && ns.branches.contains_key(id) {
            children_contents(ns, ns.branches[id].children, (h - 1) as nat).flatten()
        } else {
            Seq::empty()
        },
    }
}

/// The contents of a sequence of subtrees, one sequence per subtree.
pub open spec fn children_contents<K, V>(
    ns: NodeViews<K, V>,
    cs: Seq<NodeRef<K, V>>,
    h: nat,
) -> Seq<Seq<(K, V)>>
    decreases h, cs.len() + 1,
{
    if cs.len() == 0 {
        Seq::empty()
    } else {
        children_contents(ns, cs.drop_last(), h).push(content(ns, cs.last(), h))
    }
}

/// Each subtree's part is its content.
pub proof fn lemma_children_contents<K, V>(ns: NodeViews<K, V>, cs: Seq<NodeRef<K, V>>, h: nat)
    ensures
        children_contents(ns, cs, h).len() == cs.len(),
        forall|i: int| 0 <= i < cs.len() ==> #[trigger] children_contents(ns, cs, h)[i] == content(ns, cs[i], h),
        leaf_seqs_of(ns, cs, h).len() == cs.len(),
        forall|i: int| 0 <= i < cs.len() ==> #[trigger] leaf_seqs_of(ns, cs, h)[i] == leaf_seq(ns, cs[i], h),
    decreases cs.len(),
{
    if cs.len() > 0 {
        lemma_children_contents(ns, cs.drop_last(), h);
    }
}

/// `r` is `n` or a node below it.
pub open spec fn in_tree<K, V>(ns: NodeViews<K, V>, n: NodeRef<K, V>, h: nat, r: NodeRef<K, V>) -> bool
    decreases h, 0nat,
{
    r == n || match n {
        NodeRef::Leaf(_, _) => false,
        NodeRef::Branch(id, _) => h > 0 && ns.branches.contains_key(id) && in_first_children(
            ns,
            ns.branches[id].children,
            (h - 1) as nat,
            r,
            ns.branches[id].children.len(),
        ),
    }
}

/// `r` is in the subtree of one of the first `k` children.
pub open spec fn in_first_children<K, V>(
    ns: NodeViews<K, V>,
    cs: Seq<NodeRef<K, V>>,
    h: nat,
    r: NodeRef<K, V>,
    k: nat,
) -> bool
    decreases h, k + 1,
{
    if k == 0 || k > cs.len() {
        false
    } else {
        in_first_children(ns, cs, h, r, (k - 1) as nat) || in_tree(ns, cs[k - 1], h, r)
    }
}

/// Membership in the first children is membership in one of them.
pub proof fn lemma_in_first_children<K, V>(
    ns: NodeViews<K, V>,
    cs: Seq<NodeRef<K, V>>,
    h: nat,
    r: NodeRef<K, V>,
    k: nat,
)
    requires
        k <= cs.len(),
    ensures
        in_first_children(ns, cs, h, r, k) == exists|i: int| 0 <= i < k && #[trigger] in_tree(ns, cs[i], h, r),
    decreases k,
{
    if k > 0 {
        lemma_in_first_children(ns, cs, h, r, (k - 1) as nat);
        if in_tree(ns, cs[k - 1], h, r) {
            assert(exists|i: int| 0 <= i < k && #[trigger] in_tree(ns, cs[i], h, r));
        }
    }
}

/// `r` is in the subtree of one of the children.
pub open spec fn in_children<K, V>(
    ns: NodeViews<K, V>,
    cs: Seq<NodeRef<K, V>>,
    h: nat,
    r: NodeRef<K, V>,
) -> bool {
    exists|i: int| 0 <= i < cs.len() && #[trigger] in_tree(ns, cs[i], h, r)
}

/// The subtrees of distinct children share no node.
pub open spec fn children_disjoint<K, V>(ns: NodeViews<K, V>, cs: Seq<NodeRef<K, V>>, h: nat) -> bool {
    forall|i: int, j: int, r: NodeRef<K, V>|
        0 <= i < j < cs.len() && #[trigger] in_tree(ns, cs[i], h, r) ==> !#[trigger] in_tree(
            ns,
            cs[j],
            h,
            r,
        )
}

/// The leaf that follows child `i`: the first leaf of the next child, or
/// `after` for the last child.
pub open spec fn child_after<K, V>(
    ns: NodeViews<K, V>,
    cs: Seq<NodeRef<K, V>>,
    i: int,
    h: nat,
    after: NodeId,
) -> NodeId {
    if i + 1 < cs.len() {
        leaf_seq(ns, cs[i + 1], h)[0]
    } else {
        after
    }
}

/// A well-formed leaf: sorted keys within bounds, one value per key, linked
/// to `after`.
pub open spec fn wf_leaf<K: TreeKey, V>(
    l: LeafView<K, V>,
    lo: Option<int>,
    hi: Option<int>,
    after: NodeId,
) -> bool {
    &&& l.keys.len() == l.values.len()
    &&& keys_sorted(l.keys)
    &&& keys_in(l.keys, lo, hi)
    &&& l.next == after
}

/// A well-formed branch body whose children have height `ch`: one more
/// child than keys, sorted keys within bounds, each child well-formed
/// within its separators, and disjoint subtrees.
pub open spec fn wf_branch_body<K: TreeKey, V>(
    ns: NodeViews<K, V>,
    b: BranchView<K, V>,
    ch: nat,
    lo: Option<int>,
    hi: Option<int>,
    after: NodeId,
) -> bool {
    &&& b.children.len() == b.keys.len() + 1
    &&& keys_sorted(b.keys)
    &&& keys_in(b.keys, lo, hi)
    &&& first_above(b.keys, lo)
    &&& forall|i: int|
        0 <= i < b.children.len() ==> #[trigger] wf_node(
            ns,
            b.children[i],
            ch,
            child_lo(b.keys, i, lo),
            child_hi(b.keys, i, hi),
            child_after(ns, b.children, i, ch, after),
        )
    &&& children_disjoint(ns, b.children, ch)
}

/// A well-formed branch body none of whose subtrees contains `me`.
pub open spec fn wf_branch<K: TreeKey, V>(
    ns: NodeViews<K, V>,
    b: BranchView<K, V>,
    ch: nat,
    lo: Option<int>,
    hi: Option<int>,
    after: NodeId,
    me: NodeRef<K, V>,
) -> bool {
    &&& wf_branch_body(ns, b, ch, lo, hi, after)
    &&& forall|i: int| 0 <= i < b.children.len() ==> !#[trigger] in_tree(ns, b.children[i], ch, me)
}

/// A well-formed subtree of height `h` with keys within the bounds, whose
/// last leaf links to `after`.
pub open spec fn wf_node<K: TreeKey, V>(
    ns: NodeViews<K, V>,
    n: NodeRef<K, V>,
    h: nat,
    lo: Option<int>,
    hi: Option<int>,
    after: NodeId,
) -> bool
    decreases h, 0nat,
{
    match n {
        NodeRef::Leaf(id, _) => h == 0 && ns.leaves.contains_key(id) && wf_leaf(
            ns.leaves[id],
            lo,
            hi,
            after,
        ),
        NodeRef::Branch(id, _) => h > 0 && ns.branches.contains_key(id) && {
            let b = ns.branches[id];
            let ch = (h - 1) as nat;
            &&& b.children.len() == b.keys.len() + 1
            &&& keys_sorted(b.keys)
            &&& keys_in(b.keys, lo, hi)
            &&& first_above(b.keys, lo)
            &&& wf_first_children(ns, b.keys, b.children, ch, lo, hi, after, b.children.len())
            &&& children_disjoint(ns, b.children, ch)
            &&& forall|i: int| 0 <= i < b.children.len() ==> !#[trigger] in_tree(ns, b.children[i], ch, n)
        },
    }
}

/// The first `k` children are well-formed within their separators.
pub open spec fn wf_first_children<K: TreeKey, V>(
    ns: NodeViews<K, V>,
    keys: Seq<K>,
    cs: Seq<NodeRef<K, V>>,
    ch: nat,
    lo: Option<int>,
    hi: Option<int>,
    after: NodeId,
    k: nat,
) -> bool
    decreases ch, k + 1,
{
    if k == 0 || k > cs.len() {
        k == 0
    } else {
        wf_first_children(ns, keys, cs, ch, lo, hi, after, (k - 1) as nat) && wf_node(
            ns,
            cs[k - 1],
            ch,
            child_lo(keys, k - 1, lo),
            child_hi(keys, k - 1, hi),
            child_after(ns, cs, k - 1, ch, after),
        )
    }
}

/// The first children are well-formed exactly when each of them is.
pub proof fn lemma_wf_first_children<K: TreeKey, V>(
    ns: NodeViews<K, V>,
    keys: Seq<K>,
    cs: Seq<NodeRef<K, V>>,
    ch: nat,
    lo: Option<int>,
    hi: Option<int>,
    after: NodeId,
    k: nat,
)
    requires
        k <= cs.len(),
    ensures
        wf_first_children(ns, keys, cs, ch, lo, hi, after, k) == forall|i: int|
            0 <= i < k ==> #[trigger] wf_node(
                ns,
                cs[i],
                ch,
                child_lo(keys, i, lo),
                child_hi(keys, i, hi),
                child_after(ns, cs, i, ch, after),
            ),
    decreases k,
{
    if k > 0 {
        lemma_wf_first_children(ns, keys, cs, ch, lo, hi, after, (k - 1) as nat);
        let p = wf_first_children(ns, keys, cs, ch, lo, hi, after, (k - 1) as nat);
        let q = wf_node(
            ns,
            cs[k - 1],
            ch,
            child_lo(keys, k - 1, lo),
            child_hi(keys, k - 1, hi),
            child_after(ns, cs, k - 1, ch, after),
        );
        assert(wf_first_children(ns, keys, cs, ch, lo, hi, after, k) == (p && q));
        if p && q {
            assert forall|i: int| 0 <= i < k implies #[trigger] wf_node(
                ns,
                cs[i],
                ch,
                child_lo(keys, i, lo),
                child_hi(keys, i, hi),
                child_after(ns, cs, i, ch, after),
            ) by {
                if i < k - 1 {
                }
            }
        }
    }
}

/// A branch subtree is well-formed exactly when its body is.
pub proof fn lemma_wf_branch_unfold<K: TreeKey, V>(
    ns: NodeViews<K, V>,
    n: NodeRef<K, V>,
    h: nat,
    lo: Option<int>,
    hi: Option<int>,
    after: NodeId,
)
    requires
        n is Branch,
    ensures
        wf_node(ns, n, h, lo, hi, after) == (h > 0 && ns.branches.contains_key(n.spec_id())
            && wf_branch(ns, ns.branches[n.spec_id()], (h - 1) as nat, lo, hi, after, n)),
{
    match n {
        NodeRef::Branch(id, _) => {
            if h > 0 && ns.branches.contains_key(id) {
                let b = ns.branches[id];
                lemma_wf_first_children(ns, b.keys, b.children, (h - 1) as nat, lo, hi, after, b.children.len());
            }
        },
        NodeRef::Leaf(_, _) => {},
    }
}

/// A branch contains `r` exactly when `r` is the branch or lies under one of
/// its children.
pub proof fn lemma_in_tree_unfold<K, V>(ns: NodeViews<K, V>, n: NodeRef<K, V>, h: nat, r: NodeRef<K, V>)
    requires
        n is Branch,
        h > 0,
        ns.branches.contains_key(n.spec_id()),
    ensures
        in_tree(ns, n, h, r) == (r == n || in_children(ns, ns.branches[n.spec_id()].children, (h - 1) as nat, r)),
{
    let cs = ns.branches[n.spec_id()].children;
    lemma_in_first_children(ns, cs, (h - 1) as nat, r, cs.len());
}

/// Keys of a sorted sequence are ordered like their positions.
pub proof fn lemma_sorted_le<K: TreeKey>(s: Seq<K>, i: int, j: int)
    requires
        keys_sorted(s),
        0 <= i <= j < s.len(),
    ensures
        s[i].rank() <= s[j].rank(),
{
    if i < j {
        assert(s[i].rank() < s[j].rank());
    }
}

/// Child bounds lie within the parent's bounds.
pub proof fn lemma_child_bounds<K: TreeKey>(keys: Seq<K>, i: int, lo: Option<int>, hi: Option<int>, r: int)
    requires
        keys_sorted(keys),
        keys_in(keys, lo, hi),
        0 <= i <= keys.len(),
        rank_in(r, child_lo(keys, i, lo), child_hi(keys, i, hi)),
    ensures
        rank_in(r, lo, hi),
{
    if i > 0 {
        assert(rank_in(keys[i - 1].rank(), lo, hi));
    }
    if i < keys.len() {
        assert(rank_in(keys[i].rank(), lo, hi));
    }
}

/// Basic facts of a well-formed subtree: its nodes exist, leaves sit at
/// height zero, it has a leaf, and its entries are sorted within its bounds.
pub proof fn lemma_wf_basic<K: TreeKey, V>(
    ns: NodeViews<K, V>,
    n: NodeRef<K, V>,
    h: nat,
    lo: Option<int>,
    hi: Option<int>,
    after: NodeId,
)
    requires
        wf_node(ns, n, h, lo, hi, after),
    ensures
        ns.has(n),
        (n is Leaf) == (h == 0),
        leaf_seq(ns, n, h).len() > 0,
        entries_sorted(content(ns, n, h)),
        entries_in(content(ns, n, h), lo, hi),
        forall|r: NodeRef<K, V>| #[trigger] in_tree(ns, n, h, r) ==> ns.has(r),
    decreases h,
{
    match n {
        NodeRef::Leaf(id, _) => {
            let l = ns.leaves[id];
            let c = content(ns, n, h);
            assert forall|i: int, j: int| 0 <= i < j < c.len() implies #[trigger] c[i].0.rank()
                < #[trigger] c[j].0.rank() by {
                assert(l.keys[i].rank() < l.keys[j].rank());
            }
            assert forall|i: int| 0 <= i < c.len() implies rank_in(#[trigger] c[i].0.rank(), lo, hi) by {
                assert(rank_in(l.keys[i].rank(), lo, hi));
            }
        },
        NodeRef::Branch(id, _) => {
            assert(h > 0);
            assert(ns.branches.contains_key(id));
            let b = ns.branches[id];
            let cs = b.children;
            let ch = (h - 1) as nat;
            assert(b.children.len() == b.keys.len() + 1);
            lemma_wf_first_children(ns, b.keys, cs, ch, lo, hi, after, cs.len());
            lemma_children_contents(ns, cs, ch);
            assert forall|i: int| 0 <= i < cs.len() implies {
                &&& ns.has(#[trigger] cs[i])
                &&& leaf_seq(ns, cs[i], ch).len() > 0
                &&& entries_sorted(content(ns, cs[i], ch))
                &&& entries_in(content(ns, cs[i], ch), child_lo(b.keys, i, lo), child_hi(b.keys, i, hi))
                &&& forall|r: NodeRef<K, V>| #[trigger] in_tree(ns, cs[i], ch, r) ==> ns.has(r)
            } by {
                assert(wf_node(ns, cs[i], ch, child_lo(b.keys, i, lo), child_hi(b.keys, i, hi),
                    child_after(ns, cs, i, ch, after)));
                lemma_wf_basic(ns, cs[i], ch, child_lo(b.keys, i, lo), child_hi(b.keys, i, hi),
                    child_after(ns, cs, i, ch, after));
            }
            let parts = children_contents(ns, cs, ch);
            assert forall|i: int| 0 <= i < parts.len() implies entries_sorted(#[trigger] parts[i]) by {
                assert(parts[i] == content(ns, cs[i], ch));
            }
            assert forall|i: int, j: int, a: (K, V), c: (K, V)|
                0 <= i < j < parts.len() && #[trigger] parts[i].contains(a) && #[trigger] parts[j].contains(c)
                implies a.0.rank() < c.0.rank() by {
                let pa = choose|k: int| 0 <= k < parts[i].len() && parts[i][k] == a;
                let pc = choose|k: int| 0 <= k < parts[j].len() && parts[j][k] == c;
                assert(rank_in(parts[i][pa].0.rank(), child_lo(b.keys, i, lo), child_hi(b.keys, i, hi)));
                assert(rank_in(parts[j][pc].0.rank(), child_lo(b.keys, j, lo), child_hi(b.keys, j, hi)));
                lemma_sorted_le(b.keys, i, j - 1);
            }
            lemma_flatten_sorted(parts);
            let c = content(ns, n, h);
            assert(c == parts.flatten());
            assert forall|k: int| 0 <= k < c.len() implies rank_in(#[trigger] c[k].0.rank(), lo, hi) by {
                assert(c.contains(c[k]));
                lemma_flatten_contains(parts, c[k]);
                let i = choose|i: int| 0 <= i < parts.len() && #[trigger] parts[i].contains(c[k]);
                let p = choose|p: int| 0 <= p < parts[i].len() && parts[i][p] == c[k];
                assert(rank_in(parts[i][p].0.rank(), child_lo(b.keys, i, lo), child_hi(b.keys, i, hi)));
                lemma_child_bounds(b.keys, i, lo, hi, c[k].0.rank());
            }
            let ls = leaf_seqs_of(ns, cs, ch);
            crate::flatten::lemma_flatten_split(ls, 0);
            assert(ls[0] == leaf_seq(ns, cs[0], ch));
            assert forall|r: NodeRef<K, V>| #[trigger] in_tree(ns, n, h, r) implies ns.has(r) by {
                lemma_in_tree_unfold(ns, n, h, r);
                if r != n {
                    let i = choose|i: int| 0 <= i < cs.len() && #[trigger] in_tree(ns, cs[i], ch, r);
                }
            }
        },
    }
}

/// A child's nodes are nodes of its parent.
pub proof fn lemma_child_in_tree<K, V>(ns: NodeViews<K, V>, n: NodeRef<K, V>, h: nat, i: int, r: NodeRef<K, V>)
    requires
        n is Branch,
        h > 0,
        ns.branches.contains_key(n.spec_id()),
        0 <= i < ns.branches[n.spec_id()].children.len(),
        in_tree(ns, ns.branches[n.spec_id()].children[i], (h - 1) as nat, r),
    ensures
        in_tree(ns, n, h, r),
{
    lemma_in_tree_unfold(ns, n, h, r);
}

/// A subtree is unaffected by changes outside its nodes: it stays
/// well-formed with the same contents, leaves and nodes.
pub proof fn lemma_frame<K: TreeKey, V>(
    ns1: NodeViews<K, V>,
    ns2: NodeViews<K, V>,
    n: NodeRef<K, V>,
    h: nat,
    lo: Option<int>,
    hi: Option<int>,
    after: NodeId,
)
    requires
        wf_node(ns1, n, h, lo, hi, after),
        forall|r: NodeRef<K, V>| #[trigger] in_tree(ns1, n, h, r) ==> ns1.same_node(ns2, r),
    ensures
        wf_node(ns2, n, h, lo, hi, after),
        content(ns2, n, h) == content(ns1, n, h),
        leaf_seq(ns2, n, h) == leaf_seq(ns1, n, h),
        forall|r: NodeRef<K, V>| #[trigger] in_tree(ns2, n, h, r) == in_tree(ns1, n, h, r),
    decreases h,
{
    assert(in_tree(ns1, n, h, n));
    assert(ns1.same_node(ns2, n));
    match n {
        NodeRef::Leaf(id, _) => {},
        NodeRef::Branch(id, _) => {
            let b = ns1.branches[id];
            let cs = b.children;
            let ch = (h - 1) as nat;
            lemma_wf_branch_unfold(ns1, n, h, lo, hi, after);
            lemma_wf_first_children(ns1, b.keys, cs, ch, lo, hi, after, cs.len());
            assert forall|i: int| 0 <= i < cs.len() implies {
                &&& wf_node(ns2, #[trigger] cs[i], ch, child_lo(b.keys, i, lo), child_hi(b.keys, i, hi),
                    child_after(ns1, cs, i, ch, after))
                &&& content(ns2, cs[i], ch) == content(ns1, cs[i], ch)
                &&& leaf_seq(ns2, cs[i], ch) == leaf_seq(ns1, cs[i], ch)
                &&& forall|r: NodeRef<K, V>| #[trigger] in_tree(ns2, cs[i], ch, r) == in_tree(ns1, cs[i], ch, r)
            } by {
                assert(wf_node(ns1, cs[i], ch, child_lo(b.keys, i, lo), child_hi(b.keys, i, hi),
                    child_after(ns1, cs, i, ch, after)));
                assert forall|r: NodeRef<K, V>| #[trigger] in_tree(ns1, cs[i], ch, r) implies ns1.same_node(ns2, r) by {
                    lemma_child_in_tree(ns1, n, h, i, r);
                }
                lemma_frame(ns1, ns2, cs[i], ch, child_lo(b.keys, i, lo), child_hi(b.keys, i, hi),
                    child_after(ns1, cs, i, ch, after));
            }
            assert forall|i: int| 0 <= i < cs.len() implies #[trigger] child_after(ns2, cs, i, ch, after)
                == child_after(ns1, cs, i, ch, after) by {
                if i + 1 < cs.len() {
                    assert(leaf_seq(ns2, cs[i + 1], ch) == leaf_seq(ns1, cs[i + 1], ch));
                }
            }
            lemma_wf_first_children(ns2, b.keys, cs, ch, lo, hi, after, cs.len());
            assert forall|i: int, j: int, r: NodeRef<K, V>|
                0 <= i < j < cs.len() && #[trigger] in_tree(ns2, cs[i], ch, r) implies !#[trigger] in_tree(ns2, cs[j], ch, r) by {
                assert(in_tree(ns1, cs[i], ch, r));
            }
            assert forall|i: int| 0 <= i < cs.len() implies !#[trigger] in_tree(ns2, cs[i], ch, n) by {
                assert(!in_tree(ns1, cs[i], ch, n));
            }
            lemma_wf_branch_unfold(ns2, n, h, lo, hi, after);
            lemma_children_contents(ns1, cs, ch);
            lemma_children_contents(ns2, cs, ch);
            assert(children_contents(ns2, cs, ch) =~= children_contents(ns1, cs, ch));
            assert(leaf_seqs_of(ns2, cs, ch) =~= leaf_seqs_of(ns1, cs, ch));
            assert forall|r: NodeRef<K, V>| #[trigger] in_tree(ns2, n, h, r) == in_tree(ns1, n, h, r) by {
                lemma_in_tree_unfold(ns1, n, h, r);
                lemma_in_tree_unfold(ns2, n, h, r);
                if in_children(ns1, cs, ch, r) {
                    let i = choose|i: int| 0 <= i < cs.len() && #[trigger] in_tree(ns1, cs[i], ch, r);
                    assert(in_tree(ns2, cs[i], ch, r));
                }
                if in_children(ns2, cs, ch, r) {
                    let i = choose|i: int| 0 <= i < cs.len() && #[trigger] in_tree(ns2, cs[i], ch, r);
                    assert(in_tree(ns1, cs[i], ch, r));
                }
            }
        },
    }
}

/// Within a branch, a key in bounds can only be in the child that covers it.
pub proof fn lemma_locate<K: TreeKey, V>(
    ns: NodeViews<K, V>,
    n: NodeRef<K, V>,
    h: nat,
    lo: Option<int>,
    hi: Option<int>,
    after: NodeId,
    k: K,
)
    requires
        wf_node(ns, n, h, lo, hi, after),
        n is Branch,
        rank_in(k.rank(), lo, hi),
    ensures
        ({
            let b = ns.branches[n.spec_id()];
            let i = child_pos(b.keys, k);
            &&& h > 0
            &&& ns.branches.contains_key(n.spec_id())
            &&& 0 <= i < b.children.len()
            &&& rank_in(k.rank(), child_lo(b.keys, i, lo), child_hi(b.keys, i, hi))
            &&& wf_node(ns, b.children[i], (h - 1) as nat, child_lo(b.keys, i, lo),
                child_hi(b.keys, i, hi), child_after(ns, b.children, i, (h - 1) as nat, after))
            &&& forall|e: (K, V)| e.0 == k ==> (content(ns, n, h).contains(e) == content(ns, b.children[i], (h - 1) as nat).contains(e))
            &&& has_key(content(ns, n, h), k) == has_key(content(ns, b.children[i], (h - 1) as nat), k)
        }),
{
    let id = n.spec_id();
    let b = ns.branches[id];
    let cs = b.children;
    let ch = (h - 1) as nat;
    lemma_wf_branch_unfold(ns, n, h, lo, hi, after);
    let i = child_pos(b.keys, k);
    lemma_child_pos_exists(b.keys, k);
    if i > 0 {
        assert(b.keys[i - 1].rank() <= k.rank());
    }
    if i < b.keys.len() {
        assert(k.rank() < b.keys[i].rank());
    }
    assert(rank_in(k.rank(), child_lo(b.keys, i, lo), child_hi(b.keys, i, hi)));
    lemma_wf_first_children(ns, b.keys, cs, ch, lo, hi, after, cs.len());
    assert(wf_node(ns, cs[i], ch, child_lo(b.keys, i, lo), child_hi(b.keys, i, hi), child_after(ns, cs, i, ch, after)));
    lemma_children_contents(ns, cs, ch);
    let parts = children_contents(ns, cs, ch);
    assert(content(ns, n, h) == parts.flatten());
    assert(parts[i] == content(ns, cs[i], ch));
    assert forall|e: (K, V)| e.0 == k implies (content(ns, n, h).contains(e) == content(ns, cs[i], ch).contains(e)) by {
        lemma_flatten_contains(parts, e);
        if content(ns, n, h).contains(e) {
            let j = choose|j: int| 0 <= j < parts.len() && #[trigger] parts[j].contains(e);
            let m = choose|m: int| 0 <= m < parts[j].len() && parts[j][m] == e;
            assert(wf_node(ns, cs[j], ch, child_lo(b.keys, j, lo), child_hi(b.keys, j, hi), child_after(ns, cs, j, ch, after)));
            lemma_wf_basic(ns, cs[j], ch, child_lo(b.keys, j, lo), child_hi(b.keys, j, hi), child_after(ns, cs, j, ch, after));
            assert(parts[j] == content(ns, cs[j], ch));
            assert(rank_in(parts[j][m].0.rank(), child_lo(b.keys, j, lo), child_hi(b.keys, j, hi)));
            if j < i {
                lemma_sorted_le(b.keys, j, i - 1);
            } else if j > i {
                lemma_sorted_le(b.keys, i, j - 1);
            }
        }
    }
    if has_key(content(ns, n, h), k) {
        let m = choose|m: int| 0 <= m < content(ns, n, h).len() && #[trigger] content(ns, n, h)[m].0 == k;
        let e = content(ns, n, h)[m];
        assert(content(ns, n, h).contains(e));
        let m2 = choose|m2: int| 0 <= m2 < content(ns, cs[i], ch).len() && content(ns, cs[i], ch)[m2] == e;
        assert(content(ns, cs[i], ch)[m2].0 == k);
    }
    if has_key(content(ns, cs[i], ch), k) {
        let m = choose|m: int| 0 <= m < content(ns, cs[i], ch).len() && #[trigger] content(ns, cs[i], ch)[m].0 == k;
        let e = content(ns, cs[i], ch)[m];
        assert(content(ns, cs[i], ch).contains(e));
        assert(content(ns, n, h).contains(e));
        let m2 = choose|m2: int| 0 <= m2 < content(ns, n, h).len() && content(ns, n, h)[m2] == e;
        assert(content(ns, n, h)[m2].0 == k);
    }
}

/// The first leaf under a sequence of children is the first leaf of the
/// first child.
pub proof fn lemma_first_leaf<K: TreeKey, V>(ns: NodeViews<K, V>, cs: Seq<NodeRef<K, V>>, ch: nat)
    requires
        cs.len() > 0,
        leaf_seq(ns, cs[0], ch).len() > 0,
    ensures
        children_leaf_seq(ns, cs, ch).len() > 0,
        children_leaf_seq(ns, cs, ch)[0] == leaf_seq(ns, cs[0], ch)[0],
{
    lemma_children_contents(ns, cs, ch);
    let ls = leaf_seqs_of(ns, cs, ch);
    crate::flatten::lemma_flatten_split(ls, 0);
    assert(ls.subrange(0, 0) =~= Seq::<Seq<NodeId>>::empty());
}

/// Replacing one child's subtree, keeping its first leaf, its bounds and its
/// link, keeps a branch body well-formed.
pub proof fn lemma_body_update_child<K: TreeKey, V>(
    ns0: NodeViews<K, V>,
    ns1: NodeViews<K, V>,
    b: BranchView<K, V>,
    ch: nat,
    lo: Option<int>,
    hi: Option<int>,
    after: NodeId,
    i: int,
)
    requires
        wf_branch_body(ns0, b, ch, lo, hi, after),
        0 <= i < b.children.len(),
        forall|r: NodeRef<K, V>|
            in_children(ns0, b.children, ch, r) && !in_tree(ns0, b.children[i], ch, r)
                ==> #[trigger] ns0.same_node(ns1, r),
        wf_node(ns1, b.children[i], ch, child_lo(b.keys, i, lo), child_hi(b.keys, i, hi),
            child_after(ns0, b.children, i, ch, after)),
        leaf_seq(ns1, b.children[i], ch)[0] == leaf_seq(ns0, b.children[i], ch)[0],
        forall|r: NodeRef<K, V>|
            #[trigger] in_tree(ns1, b.children[i], ch, r) ==> in_tree(ns0, b.children[i], ch, r)
                || !ns0.has(r),
    ensures
        wf_branch_body(ns1, b, ch, lo, hi, after),
        children_contents(ns1, b.children, ch) == children_contents(ns0, b.children, ch).update(
            i,
            content(ns1, b.children[i], ch),
        ),
        children_leaf_seq(ns1, b.children, ch).len() > 0,
        children_leaf_seq(ns1, b.children, ch)[0] == children_leaf_seq(ns0, b.children, ch)[0],
        forall|r: NodeRef<K, V>|
            #[trigger] in_children(ns1, b.children, ch, r) ==> in_children(ns0, b.children, ch, r)
                || !ns0.has(r),
{
    let cs = b.children;
    assert forall|j: int| 0 <= j < cs.len() && j != i implies {
        &&& wf_node(ns1, #[trigger] cs[j], ch, child_lo(b.keys, j, lo), child_hi(b.keys, j, hi),
            child_after(ns0, cs, j, ch, after))
        &&& content(ns1, cs[j], ch) == content(ns0, cs[j], ch)
        &&& leaf_seq(ns1, cs[j], ch) == leaf_seq(ns0, cs[j], ch)
        &&& forall|r: NodeRef<K, V>| #[trigger] in_tree(ns1, cs[j], ch, r) == in_tree(ns0, cs[j], ch, r)
    } by {
        assert(wf_node(ns0, cs[j], ch, child_lo(b.keys, j, lo), child_hi(b.keys, j, hi),
            child_after(ns0, cs, j, ch, after)));
        assert forall|r: NodeRef<K, V>| #[trigger] in_tree(ns0, cs[j], ch, r) implies ns0.same_node(ns1, r) by {
            assert(in_children(ns0, cs, ch, r));
            if j < i {
                assert(!in_tree(ns0, cs[i], ch, r));
            } else {
                assert(!in_tree(ns0, cs[i], ch, r));
            }
        }
        lemma_frame(ns0, ns1, cs[j], ch, child_lo(b.keys, j, lo), child_hi(b.keys, j, hi),
            child_after(ns0, cs, j, ch, after));
    }
    assert forall|j: int| 0 <= j < cs.len() implies #[trigger] child_after(ns1, cs, j, ch, after)
        == child_after(ns0, cs, j, ch, after) by {
        if j + 1 < cs.len() && j + 1 != i {
            assert(leaf_seq(ns1, cs[j + 1], ch) == leaf_seq(ns0, cs[j + 1], ch));
        }
    }
    assert forall|j: int| 0 <= j < cs.len() implies #[trigger] wf_node(
        ns1,
        cs[j],
        ch,
        child_lo(b.keys, j, lo),
        child_hi(b.keys, j, hi),
        child_after(ns1, cs, j, ch, after),
    ) by {
        assert(child_after(ns1, cs, j, ch, after) == child_after(ns0, cs, j, ch, after));
    }
    assert forall|j: int, r: NodeRef<K, V>| 0 <= j < cs.len() && #[trigger] in_tree(ns0, cs[j], ch, r) implies ns0.has(r) by {
        lemma_wf_basic(ns0, cs[j], ch, child_lo(b.keys, j, lo), child_hi(b.keys, j, hi),
            child_after(ns0, cs, j, ch, after));
    }
    assert forall|j: int, l: int, r: NodeRef<K, V>|
        0 <= j < l < cs.len() && #[trigger] in_tree(ns1, cs[j], ch, r) implies !#[trigger] in_tree(ns1, cs[l], ch, r) by {
        if j == i {
            if in_tree(ns1, cs[l], ch, r) {
                assert(in_tree(ns0, cs[l], ch, r));
                assert(ns0.has(r));
                assert(in_tree(ns0, cs[i], ch, r));
            }
        } else if l == i {
            assert(in_tree(ns0, cs[j], ch, r));
            assert(ns0.has(r));
        } else {
            assert(in_tree(ns0, cs[j], ch, r));
        }
    }
    lemma_children_contents(ns0, cs, ch);
    lemma_children_contents(ns1, cs, ch);
    assert(children_contents(ns1, cs, ch) =~= children_contents(ns0, cs, ch).update(i, content(ns1, cs[i], ch)));
    assert(wf_node(ns1, cs[0], ch, child_lo(b.keys, 0, lo), child_hi(b.keys, 0, hi), child_after(ns1, cs, 0, ch, after)));
    assert(wf_node(ns0, cs[0], ch, child_lo(b.keys, 0, lo), child_hi(b.keys, 0, hi), child_after(ns0, cs, 0, ch, after)));
    lemma_wf_basic(ns1, cs[0], ch, child_lo(b.keys, 0, lo), child_hi(b.keys, 0, hi), child_after(ns1, cs, 0, ch, after));
    lemma_wf_basic(ns0, cs[0], ch, child_lo(b.keys, 0, lo), child_hi(b.keys, 0, hi), child_after(ns0, cs, 0, ch, after));
    lemma_first_leaf(ns1, cs, ch);
    lemma_first_leaf(ns0, cs, ch);
    assert forall|r: NodeRef<K, V>| #[trigger] in_children(ns1, cs, ch, r) implies in_children(ns0, cs, ch, r) || !ns0.has(r) by {
        let j = choose|j: int| 0 <= j < cs.len() && #[trigger] in_tree(ns1, cs[j], ch, r);
        if j != i {
            assert(in_tree(ns0, cs[j], ch, r));
        }
    }
}

} // verus!
