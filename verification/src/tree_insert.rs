//! Insertion into the arena tree: into a leaf, down the branches with
//! splits on the way back up, and a new root when the old one splits.
use crate::node::{leaf_split_point, BranchNode, InsertResult, LeafNode, SplitNodeData};
use crate::tree::{bview, lview, node_keys_len, BPlusTreeMap};
use crate::body_lemmas::{
    body_insert, body_left, body_right, lemma_body_frame, lemma_body_has,
    lemma_body_insert_child, lemma_children_kept, lemma_children_kept_insert, lemma_parts_around,
    lemma_split_body, split_child_ok,
};
use crate::flatten::{lemma_flatten_add, lemma_flatten_replace, lemma_flatten_two};
use crate::sorted::{child_pos, entries_map, lemma_insert_entry_middle, lemma_map_get, lemma_map_insert_entry};
use crate::tree_spec::{
    child_after, child_hi, child_lo, children_contents, children_leaf_seq, content, entries_in,
    in_children, in_tree, keys_in, lemma_body_update_child, lemma_child_in_tree,
    lemma_in_tree_unfold, lemma_locate, lemma_wf_basic, lemma_wf_branch_unfold, leaf_seq,
    rank_in, wf_branch, wf_branch_body, wf_node, BranchView, LeafView, NodeViews,
};
use crate::types::{branch_ref, leaf_ref, NodeRef, NULL_NODE};
use crate::sorted::{
    entries_sorted, entry_keys, has_key, insert_entry, is_lower_index, lemma_choose_lower_index,
    lemma_insert_entry_sorted, lemma_zip, lemma_zip_add, lemma_zip_insert, lemma_zip_update,
    zip_entries,
};
use crate::types::{NodeId, TreeKey};
use std::marker::PhantomData;
use vstd::prelude::*;

verus! {

/// An old value returned by an insert is the value the key had, if any.
pub open spec fn old_value_ok<K, V>(c: Seq<(K, V)>, k: K, old: Option<V>) -> bool {
    match old {
        Some(v) => c.contains((k, v)),
        None => !has_key(c, k),
    }
}

/// Insert into a leaf the way the tree does: replace the value of a present
/// key, insert in order when there is room, or split a full leaf first and
/// insert into the half the key belongs to.
fn insert_into_leaf_node<K: TreeKey, V>(leaf: &mut LeafNode<K, V>, key: K, value: V) -> (r: InsertResult<K, V>)
    requires
        old(leaf).wf(),
        old(leaf).capacity >= 2,
    ensures
        final(leaf).capacity == old(leaf).capacity,
        final(leaf).wf(),
        match r {
            InsertResult::Updated(old_v) => {
                &&& final(leaf).entries() == insert_entry(old(leaf).entries(), key, value)
                &&& final(leaf).next == old(leaf).next
                &&& old_value_ok(old(leaf).entries(), key, old_v)
                &&& old_v is None ==> old(leaf).keys@.len() < old(leaf).capacity
            },
            InsertResult::Split { old_value, new_node_data, separator_key } => {
                &&& old_value is None
                &&& !has_key(old(leaf).entries(), key)
                &&& new_node_data is Leaf
                &&& ({
                    let right = new_node_data->Leaf_0;
                    &&& right.wf()
                    &&& right.capacity == old(leaf).capacity
                    &&& right.next == old(leaf).next
                    &&& final(leaf).entries() + right.entries() == insert_entry(
                        old(leaf).entries(),
                        key,
                        value,
                    )
                    &&& final(leaf).keys@.len() > 0
                    &&& right.keys@.len() > 0
                    &&& separator_key == right.keys@[0]
                    &&& old(leaf).keys@.len() >= old(leaf).capacity
                    &&& final(leaf).keys@.len() == ({
                        let m = leaf_split_point(old(leaf).keys@.len() as int, old(leaf).capacity as int);
                        let p = choose|p: int| is_lower_index(entry_keys(old(leaf).entries()), key, p);
                        if p <= m { m + 1 } else { m }
                    })
                })
            },
            InsertResult::Error(_) => false,
        },
{
    let ghost ks = leaf.keys@;
    let ghost vs = leaf.values@;
    let ghost c0 = zip_entries(ks, vs);
    proof {
        lemma_zip(ks, vs);
    }
    match crate::sorted::search_keys(&leaf.keys, &key) {
        Ok(index) => {
            let ghost new_value = value;
            let mut value = value;
            std::mem::swap(&mut leaf.values[index], &mut value);
            proof {
                assert(leaf.values@ =~= vs.update(index as int, new_value));
                lemma_zip_update(ks, vs, index as int, new_value);
                lemma_choose_lower_index(c0, key, index as int);
                lemma_zip(leaf.keys@, leaf.values@);
                assert(c0[index as int] == (key, value));
            }
            InsertResult::Updated(Some(value))
        },
        Err(index) => {
            proof {
                lemma_choose_lower_index(c0, key, index as int);
                lemma_zip_insert(ks, vs, index as int, key, value);
                lemma_insert_entry_sorted(c0, key, value);
                assert(!has_key(c0, key)) by {
                    if has_key(c0, key) {
                        let j = choose|j: int| 0 <= j < c0.len() && #[trigger] c0[j].0 == key;
                        assert(ks[j] == key);
                    }
                }
                lemma_zip(ks.insert(index as int, key), vs.insert(index as int, value));
            }
            if !leaf.is_full() {
                leaf.insert_at_index(index, key, value);
                return InsertResult::Updated(None);
            }
            let mut new_right = leaf.split();
            let ghost m = leaf.keys@.len();
            let ghost kall = ks.insert(index as int, key);
            let ghost vall = vs.insert(index as int, value);
            if index <= leaf.keys.len() {
                leaf.insert_at_index(index, key, value);
                proof {
                    assert(leaf.keys@ + new_right.keys@ =~= kall);
                    assert(leaf.values@ + new_right.values@ =~= vall);
                }
            } else {
                let at = index - leaf.keys.len();
                new_right.insert_at_index(at, key, value);
                proof {
                    assert(leaf.keys@ + new_right.keys@ =~= kall);
                    assert(leaf.values@ + new_right.values@ =~= vall);
                }
            }
            proof {
                lemma_zip_add(leaf.keys@, leaf.values@, new_right.keys@, new_right.values@);
                lemma_zip(leaf.keys@, leaf.values@);
                lemma_zip(new_right.keys@, new_right.values@);
                let l = leaf.keys@;
                let rk = new_right.keys@;
                assert forall|i: int, j: int| 0 <= i < j < l.len() implies #[trigger] l[i].rank() < #[trigger] l[j].rank() by {
                    assert(l[i] == kall[i] && l[j] == kall[j]);
                    assert(zip_entries(kall, vall)[i].0.rank() < zip_entries(kall, vall)[j].0.rank());
                }
                assert forall|i: int, j: int| 0 <= i < j < rk.len() implies #[trigger] rk[i].rank() < #[trigger] rk[j].rank() by {
                    assert(rk[i] == kall[i + l.len()] && rk[j] == kall[j + l.len()]);
                    assert(zip_entries(kall, vall)[i + l.len()].0.rank() < zip_entries(kall, vall)[j + l.len()].0.rank());
                }
            }
            let separator_key = new_right.keys[0];
            InsertResult::Split {
                old_value: None,
                new_node_data: SplitNodeData::Leaf(new_right),
                separator_key,
            }
        },
    }
}

/// The views once the right half `d` of a split of `n` is stored at `nid`,
/// a split leaf being linked to its new right neighbour.
pub open spec fn with_right<K, V>(
    ns: NodeViews<K, V>,
    n: NodeRef<K, V>,
    d: SplitNodeData<K, V>,
    nid: NodeId,
) -> NodeViews<K, V> {
    match d {
        SplitNodeData::Leaf(l) => NodeViews {
            leaves: ns.leaves.insert(nid, lview(l)).insert(
                n.spec_id(),
                LeafView {
                    keys: ns.leaves[n.spec_id()].keys,
                    values: ns.leaves[n.spec_id()].values,
                    next: nid,
                },
            ),
            branches: ns.branches,
        },
        SplitNodeData::Branch(b) => NodeViews {
            leaves: ns.leaves,
            branches: ns.branches.insert(nid, bview(b)),
        },
        SplitNodeData::CompressedBranch(_) => ns,
    }
}

/// The reference to the right half of a split once stored at `nid`.
pub open spec fn right_ref<K, V>(d: SplitNodeData<K, V>, nid: NodeId) -> NodeRef<K, V> {
    match d {
        SplitNodeData::Leaf(_) => leaf_ref(nid),
        SplitNodeData::Branch(_) => branch_ref(nid),
        SplitNodeData::CompressedBranch(_) => branch_ref(nid),
    }
}

/// `nid` is a usable id for the right half of a split.
pub open spec fn free_for<K, V>(ns: NodeViews<K, V>, d: SplitNodeData<K, V>, nid: NodeId) -> bool {
    nid != NULL_NODE && !ns.has(right_ref(d, nid))
}

/// The capacity a split half was made with.
pub open spec fn data_capacity<K, V>(d: SplitNodeData<K, V>) -> usize {
    match d {
        SplitNodeData::Leaf(l) => l.capacity,
        SplitNodeData::Branch(b) => b.capacity,
        SplitNodeData::CompressedBranch(c) => c.spec_capacity() as usize,
    }
}

/// The two halves of a split of `n`, once the right one is stored at `nid`,
/// are well-formed on either side of `sep`, hold the new entries `c1`
/// between them, and use no node of the old views outside the old subtree.
pub open spec fn split_ok<K: TreeKey, V>(
    ns0: NodeViews<K, V>,
    ns1: NodeViews<K, V>,
    n: NodeRef<K, V>,
    h: nat,
    lo: Option<int>,
    hi: Option<int>,
    after: NodeId,
    d: SplitNodeData<K, V>,
    sep: K,
    nid: NodeId,
    c1: Seq<(K, V)>,
) -> bool {
    let ns2 = with_right(ns1, n, d, nid);
    let rn = right_ref(d, nid);
    &&& wf_node(ns2, n, h, lo, Some(sep.rank()), leaf_seq(ns2, rn, h)[0])
    &&& wf_node(ns2, rn, h, Some(sep.rank()), hi, after)
    &&& content(ns2, n, h) + content(ns2, rn, h) == c1
    &&& leaf_seq(ns2, n, h)[0] == leaf_seq(ns0, n, h)[0]
    &&& forall|x: NodeRef<K, V>| #[trigger] in_tree(ns2, n, h, x) ==> in_tree(ns0, n, h, x) || !ns0.has(x)
    &&& forall|x: NodeRef<K, V>| #[trigger] in_tree(ns2, rn, h, x) ==> in_tree(ns0, n, h, x) || !ns0.has(x)
    &&& forall|x: NodeRef<K, V>| #[trigger] in_tree(ns2, n, h, x) ==> !in_tree(ns2, rn, h, x)
}

/// What inserting `(k, v)` below `n` achieved, from views `ns0` to `ns1`:
/// nodes outside the subtree are untouched and none is lost; either the
/// subtree is well-formed and holds the new entries, or it split and both
/// halves are, once the right one is stored.
pub open spec fn insert_done<K: TreeKey, V>(
    ns0: NodeViews<K, V>,
    ns1: NodeViews<K, V>,
    n: NodeRef<K, V>,
    h: nat,
    lo: Option<int>,
    hi: Option<int>,
    after: NodeId,
    k: K,
    v: V,
    r: InsertResult<K, V>,
) -> bool {
    let c0 = content(ns0, n, h);
    let c1 = insert_entry(c0, k, v);
    &&& forall|x: NodeRef<K, V>| ns0.has(x) && !in_tree(ns0, n, h, x) ==> #[trigger] ns0.same_node(ns1, x)
    &&& forall|x: NodeRef<K, V>| #[trigger] ns0.has(x) ==> ns1.has(x)
    &&& match r {
        InsertResult::Updated(old) => {
            &&& wf_node(ns1, n, h, lo, hi, after)
            &&& content(ns1, n, h) == c1
            &&& leaf_seq(ns1, n, h)[0] == leaf_seq(ns0, n, h)[0]
            &&& forall|x: NodeRef<K, V>| #[trigger] in_tree(ns1, n, h, x) ==> in_tree(ns0, n, h, x) || !ns0.has(x)
            &&& old_value_ok(c0, k, old)
        },
        InsertResult::Split { old_value, new_node_data, separator_key } => {
            &&& old_value is None
            &&& !has_key(c0, k)
            &&& (new_node_data is Leaf) == (n is Leaf)
            &&& !(new_node_data is CompressedBranch)
            &&& ns1.has(n)
            &&& rank_in(separator_key.rank(), lo, hi)
            &&& (lo matches Some(x) ==> x < separator_key.rank())
            &&& forall|nid: NodeId| #[trigger] free_for(ns1, new_node_data, nid) ==> split_ok(
                ns0, ns1, n, h, lo, hi, after, new_node_data, separator_key, nid, c1)
        },
        InsertResult::Error(_) => false,
    }
}

/// Once the right half `d` of a split of `n` is stored at `nid`, the two
/// halves hold every node of the old subtree and every new node.
pub open spec fn split_kept<K, V>(
    ns0: NodeViews<K, V>,
    ns1: NodeViews<K, V>,
    n: NodeRef<K, V>,
    h: nat,
    d: SplitNodeData<K, V>,
    nid: NodeId,
) -> bool {
    let ns2 = with_right(ns1, n, d, nid);
    let rn = right_ref(d, nid);
    forall|x: NodeRef<K, V>|
        #![trigger in_tree(ns2, n, h, x)]
        #![trigger in_tree(ns2, rn, h, x)]
        ns2.has(x) && (in_tree(ns0, n, h, x) || !ns0.has(x)) ==> in_tree(ns2, n, h, x) || in_tree(ns2, rn, h, x)
}

/// No node is dropped from the subtree of `n` by an insertion below it:
/// the new subtree, or its two halves after a split, hold every node of
/// the old subtree and every new node.
pub open spec fn insert_kept<K, V>(
    ns0: NodeViews<K, V>,
    ns1: NodeViews<K, V>,
    n: NodeRef<K, V>,
    h: nat,
    r: InsertResult<K, V>,
) -> bool {
    match r {
        InsertResult::Updated(_) => forall|x: NodeRef<K, V>|
            ns1.has(x) && (in_tree(ns0, n, h, x) || !ns0.has(x)) ==> #[trigger] in_tree(ns1, n, h, x),
        InsertResult::Split { new_node_data, .. } => forall|nid: NodeId|
            #[trigger] free_for(ns1, new_node_data, nid) ==> split_kept(ns0, ns1, n, h, new_node_data, nid),
        InsertResult::Error(_) => true,
    }
}

/// How a leaf `n` of capacity `cap` took `(k, v)`: an update leaves it with
/// room to spare unless the key was there; a split happens only to a full
/// leaf, which keeps as many entries as `leaf_split_point` gives for it,
/// one more when the new entry falls within them, and hands the first key
/// of the rest up as the separator.
pub open spec fn leaf_insert_shape<K: TreeKey, V>(
    ns0: NodeViews<K, V>,
    ns1: NodeViews<K, V>,
    n: NodeRef<K, V>,
    cap: int,
    k: K,
    v: V,
    r: InsertResult<K, V>,
) -> bool {
    let c0 = content(ns0, n, 0);
    let c1 = insert_entry(c0, k, v);
    let p = choose|p: int| is_lower_index(entry_keys(c0), k, p);
    let m0 = leaf_split_point(c0.len() as int, cap);
    let m = if p <= m0 { m0 + 1 } else { m0 };
    match r {
        InsertResult::Updated(None) => c0.len() < cap,
        InsertResult::Split { separator_key, .. } => {
            &&& c0.len() == cap
            &&& content(ns1, n, 0) == c1.subrange(0, m)
            &&& separator_key == c1[m].0
        },
        _ => true,
    }
}

/// What inserting `(k, v)` does to a tree whose root is a leaf: with the
/// key present or room to spare the root stays; a full root leaf splits,
/// keeping its first entries as `leaf_insert_shape` gives them, under a new
/// root above it and its new right neighbour.
pub open spec fn root_leaf_insert_shape<K: TreeKey, V>(t0: BPlusTreeMap<K, V>, t1: BPlusTreeMap<K, V>, k: K, v: V) -> bool {
    let c0 = t0.entries();
    let c1 = insert_entry(c0, k, v);
    let p = choose|p: int| is_lower_index(entry_keys(c0), k, p);
    let m0 = leaf_split_point(c0.len() as int, t0.capacity as int);
    let m = if p <= m0 { m0 + 1 } else { m0 };
    if has_key(c0, k) || c0.len() < t0.capacity {
        t1.root == t0.root && t1.height@ == 0
    } else {
        &&& t1.height@ == 1
        &&& t1.root is Branch
        &&& leaf_seq(t1.views(), t1.root, 1).len() == 2
        &&& leaf_seq(t1.views(), t1.root, 1)[0] == t0.root.spec_id()
        &&& content(t1.views(), t0.root, 0) == c1.subrange(0, m)
    }
}

/// How many keys the node data holds.
pub open spec fn data_len<K, V>(d: SplitNodeData<K, V>) -> nat {
    match d {
        SplitNodeData::Leaf(l) => l.keys@.len(),
        SplitNodeData::Branch(b) => b.keys@.len(),
        SplitNodeData::CompressedBranch(c) => c.spec_len(),
    }
}

/// A split half carries the tree's capacity and holds at least half and
/// at most all of that many keys.
pub open spec fn split_capacity<K, V>(r: InsertResult<K, V>, cap: usize) -> bool {
    r matches InsertResult::Split { new_node_data, .. } ==> data_capacity(new_node_data) == cap
        && cap / 2 <= data_len(new_node_data) <= cap
}

/// Keys lie within bounds exactly when their entries do.
pub(crate) proof fn lemma_keys_in_zip<K: TreeKey, V>(keys: Seq<K>, values: Seq<V>, lo: Option<int>, hi: Option<int>)
    requires
        keys.len() == values.len(),
    ensures
        keys_in(keys, lo, hi) == entries_in(zip_entries(keys, values), lo, hi),
{
    lemma_zip(keys, values);
    if entries_in(zip_entries(keys, values), lo, hi) {
        assert forall|i: int| 0 <= i < keys.len() implies rank_in(#[trigger] keys[i].rank(), lo, hi) by {
            assert(zip_entries(keys, values)[i].0 == keys[i]);
        }
    }
}

/// Inserting an entry within bounds keeps all entries within bounds.
pub(crate) proof fn lemma_insert_entry_in<K: TreeKey, V>(c: Seq<(K, V)>, k: K, v: V, lo: Option<int>, hi: Option<int>)
    requires
        entries_sorted(c),
        entries_in(c, lo, hi),
        rank_in(k.rank(), lo, hi),
    ensures
        entries_in(insert_entry(c, k, v), lo, hi),
{
    crate::sorted::lemma_lower_index_exists(c, k);
    let p = choose|p: int| is_lower_index(entry_keys(c), k, p);
    let t = insert_entry(c, k, v);
    assert forall|i: int| 0 <= i < t.len() implies rank_in(#[trigger] t[i].0.rank(), lo, hi) by {
        if p < c.len() && c[p].0 == k {
            if i != p {
                assert(t[i] == c[i]);
            }
        } else {
            if i < p {
                assert(t[i] == c[i]);
            } else if i > p {
                assert(t[i] == c[i - 1]);
            }
        }
    }
}

/// The halves of sorted entries within bounds lie on either side of the
/// first key of the right half.
pub(crate) proof fn lemma_halves_in<K: TreeKey, V>(c: Seq<(K, V)>, l: Seq<(K, V)>, r: Seq<(K, V)>, lo: Option<int>, hi: Option<int>)
    requires
        c == l + r,
        entries_sorted(c),
        entries_in(c, lo, hi),
        l.len() > 0,
        r.len() > 0,
    ensures
        entries_in(l, lo, Some(r[0].0.rank())),
        entries_in(r, Some(r[0].0.rank()), hi),
        rank_in(r[0].0.rank(), lo, hi),
        lo matches Some(x) ==> x < r[0].0.rank(),
{
    assert(c[l.len() as int] == r[0]);
    assert forall|i: int| 0 <= i < l.len() implies rank_in(#[trigger] l[i].0.rank(), lo, Some(r[0].0.rank())) by {
        assert(c[i] == l[i]);
        assert(c[i].0.rank() < c[l.len() as int].0.rank());
    }
    assert forall|i: int| 0 <= i < r.len() implies rank_in(#[trigger] r[i].0.rank(), Some(r[0].0.rank()), hi) by {
        assert(c[i + l.len()] == r[i]);
        if i > 0 {
            assert(c[l.len() as int].0.rank() < c[i + l.len()].0.rank());
        }
    }
    assert(c[0] == l[0]);
    assert(rank_in(c[0].0.rank(), lo, hi));
    assert(c[0].0.rank() < c[l.len() as int].0.rank());
}

/// The child of branch `n` that covers `k`, with its height, bounds and
/// link, as the insertion below `n` passes them down.
pub open spec fn child_insert_done<K: TreeKey, V>(
    ns0: NodeViews<K, V>,
    ns1: NodeViews<K, V>,
    n: NodeRef<K, V>,
    h: nat,
    lo: Option<int>,
    hi: Option<int>,
    after: NodeId,
    k: K,
    v: V,
    r: InsertResult<K, V>,
) -> bool {
    let b = ns0.branches[n.spec_id()];
    let i = child_pos(b.keys, k);
    let ch = (h - 1) as nat;
    insert_done(ns0, ns1, b.children[i], ch, child_lo(b.keys, i, lo), child_hi(b.keys, i, hi),
        child_after(ns0, b.children, i, ch, after), k, v, r)
}

/// A child's nodes are its parent's, and the parent is outside its children.
pub(crate) proof fn lemma_branch_child_facts<K: TreeKey, V>(
    ns0: NodeViews<K, V>,
    n: NodeRef<K, V>,
    h: nat,
    lo: Option<int>,
    hi: Option<int>,
    after: NodeId,
    k: K,
)
    requires
        wf_node(ns0, n, h, lo, hi, after),
        n is Branch,
        rank_in(k.rank(), lo, hi),
    ensures
        ({
            let b = ns0.branches[n.spec_id()];
            let i = child_pos(b.keys, k);
            let ch = (h - 1) as nat;
            &&& h > 0
            &&& ns0.branches.contains_key(n.spec_id())
            &&& ns0.has(n)
            &&& 0 <= i < b.children.len()
            &&& wf_branch(ns0, b, ch, lo, hi, after, n)
            &&& rank_in(k.rank(), child_lo(b.keys, i, lo), child_hi(b.keys, i, hi))
            &&& wf_node(ns0, b.children[i], ch, child_lo(b.keys, i, lo), child_hi(b.keys, i, hi),
                child_after(ns0, b.children, i, ch, after))
            &&& forall|x: NodeRef<K, V>| #[trigger] in_tree(ns0, b.children[i], ch, x) ==> in_tree(ns0, n, h, x)
            &&& forall|x: NodeRef<K, V>| #[trigger] in_children(ns0, b.children, ch, x) ==> ns0.has(x)
            &&& !in_children(ns0, b.children, ch, n)
            &&& forall|e: (K, V)| e.0 == k ==> (content(ns0, n, h).contains(e) == content(ns0, b.children[i], ch).contains(e))
            &&& has_key(content(ns0, n, h), k) == has_key(content(ns0, b.children[i], ch), k)
        }),
{
    let b = ns0.branches[n.spec_id()];
    let i = child_pos(b.keys, k);
    let ch = (h - 1) as nat;
    lemma_locate(ns0, n, h, lo, hi, after, k);
    lemma_wf_branch_unfold(ns0, n, h, lo, hi, after);
    assert forall|x: NodeRef<K, V>| #[trigger] in_tree(ns0, b.children[i], ch, x) implies in_tree(ns0, n, h, x) by {
        lemma_child_in_tree(ns0, n, h, i, x);
    }
    lemma_body_has(ns0, b, ch, lo, hi, after);
    if in_children(ns0, b.children, ch, n) {
        let t = choose|t: int| 0 <= t < b.children.len() && #[trigger] in_tree(ns0, b.children[t], ch, n);
        assert(!in_tree(ns0, b.children[t], ch, n));
    }
}

/// A branch whose covering child took the insertion without splitting
/// took it too.
#[verifier::spinoff_prover]
pub(crate) proof fn lemma_insert_branch_updated<K: TreeKey, V>(
    ns0: NodeViews<K, V>,
    ns1: NodeViews<K, V>,
    n: NodeRef<K, V>,
    h: nat,
    lo: Option<int>,
    hi: Option<int>,
    after: NodeId,
    k: K,
    v: V,
    old: Option<V>,
)
    requires
        wf_node(ns0, n, h, lo, hi, after),
        n is Branch,
        rank_in(k.rank(), lo, hi),
        child_insert_done(ns0, ns1, n, h, lo, hi, after, k, v, InsertResult::Updated(old)),
    ensures
        insert_done(ns0, ns1, n, h, lo, hi, after, k, v, InsertResult::Updated(old)),
{
    let id = n.spec_id();
    let b = ns0.branches[id];
    let ch = (h - 1) as nat;
    let cs = b.children;
    let i = child_pos(b.keys, k);
    let c = cs[i];
    lemma_branch_child_facts(ns0, n, h, lo, hi, after, k);
    lemma_parts_around(ns0, n, h, lo, hi, after, k);
    assert forall|x: NodeRef<K, V>| ns0.has(x) && !in_tree(ns0, n, h, x) implies #[trigger] ns0.same_node(ns1, x) by {
        assert(!in_tree(ns0, c, ch, x));
    }
    assert(ns0.same_node(ns1, n)) by {
        assert(!in_tree(ns0, c, ch, n)) by {
            if in_tree(ns0, c, ch, n) {
                assert(in_children(ns0, cs, ch, n));
            }
        }
    }
    assert(ns1.branches[id] == b);
    assert forall|x: NodeRef<K, V>| in_children(ns0, cs, ch, x) && !in_tree(ns0, c, ch, x) implies #[trigger] ns0.same_node(ns1, x) by {
        assert(ns0.has(x));
    }
    lemma_body_update_child(ns0, ns1, b, ch, lo, hi, after, i);
    assert forall|t: int| 0 <= t < cs.len() implies !#[trigger] in_tree(ns1, cs[t], ch, n) by {
        if in_tree(ns1, cs[t], ch, n) {
            assert(in_children(ns1, cs, ch, n));
        }
    }
    lemma_wf_branch_unfold(ns1, n, h, lo, hi, after);
    // contents
    let parts0 = children_contents(ns0, cs, ch);
    let ci1 = content(ns1, c, ch);
    lemma_flatten_two(ci1, ci1);
    lemma_flatten_replace(parts0, i, seq![ci1]);
    lemma_insert_entry_middle(parts0.subrange(0, i).flatten(), parts0[i], parts0.subrange(i + 1, parts0.len() as int).flatten(), k, v);
    assert(content(ns1, n, h) == insert_entry(content(ns0, n, h), k, v));
    assert forall|x: NodeRef<K, V>| #[trigger] in_tree(ns1, n, h, x) implies in_tree(ns0, n, h, x) || !ns0.has(x) by {
        lemma_in_tree_unfold(ns1, n, h, x);
        lemma_in_tree_unfold(ns0, n, h, x);
    }
    match old {
        Some(ov) => {},
        None => {},
    }
}

/// A branch whose covering child kept every node of its subtree and every
/// new node keeps them too.
#[verifier::spinoff_prover]
proof fn lemma_kept_branch_updated<K: TreeKey, V>(
    ns0: NodeViews<K, V>,
    ns1: NodeViews<K, V>,
    n: NodeRef<K, V>,
    h: nat,
    lo: Option<int>,
    hi: Option<int>,
    after: NodeId,
    k: K,
    v: V,
    old: Option<V>,
)
    requires
        wf_node(ns0, n, h, lo, hi, after),
        n is Branch,
        rank_in(k.rank(), lo, hi),
        child_insert_done(ns0, ns1, n, h, lo, hi, after, k, v, InsertResult::Updated(old)),
        insert_kept(ns0, ns1, ns0.branches[n.spec_id()].children[child_pos(ns0.branches[n.spec_id()].keys, k)],
            (h - 1) as nat, InsertResult::Updated(old)),
    ensures
        insert_kept(ns0, ns1, n, h, InsertResult::Updated(old)),
{
    let id = n.spec_id();
    let b = ns0.branches[id];
    let ch = (h - 1) as nat;
    let cs = b.children;
    let i = child_pos(b.keys, k);
    let c = cs[i];
    lemma_branch_child_facts(ns0, n, h, lo, hi, after, k);
    lemma_parts_around(ns0, n, h, lo, hi, after, k);
    lemma_wf_branch_unfold(ns0, n, h, lo, hi, after);
    assert(!in_tree(ns0, c, ch, n)) by {
        if in_tree(ns0, c, ch, n) {
            assert(in_children(ns0, cs, ch, n));
        }
    }
    assert(ns0.same_node(ns1, n));
    assert(ns1.branches[id] == b);
    assert forall|x: NodeRef<K, V>| in_children(ns0, cs, ch, x) && !in_tree(ns0, c, ch, x) implies #[trigger] ns0.same_node(ns1, x) by {
        assert(ns0.has(x));
    }
    lemma_children_kept(ns0, ns1, b, ch, lo, hi, after, i);
    assert forall|x: NodeRef<K, V>| ns1.has(x) && (in_tree(ns0, n, h, x) || !ns0.has(x)) implies #[trigger] in_tree(ns1, n, h, x) by {
        lemma_in_tree_unfold(ns1, n, h, x);
        lemma_in_tree_unfold(ns0, n, h, x);
    }
}

/// After a covering child split, its right half was stored and linked, the
/// branch body with the separator and new child inserted is well-formed
/// and holds the new entries.
#[verifier::spinoff_prover]
proof fn lemma_insert_child_split<K: TreeKey, V>(
    ns0: NodeViews<K, V>,
    ns1: NodeViews<K, V>,
    n: NodeRef<K, V>,
    h: nat,
    lo: Option<int>,
    hi: Option<int>,
    after: NodeId,
    k: K,
    v: V,
    d: SplitNodeData<K, V>,
    sep: K,
    nid: NodeId,
)
    requires
        wf_node(ns0, n, h, lo, hi, after),
        n is Branch,
        rank_in(k.rank(), lo, hi),
        child_insert_done(ns0, ns1, n, h, lo, hi, after, k, v, InsertResult::Split { old_value: None, new_node_data: d, separator_key: sep }),
        free_for(ns1, d, nid),
        split_kept(ns0, ns1, ns0.branches[n.spec_id()].children[child_pos(ns0.branches[n.spec_id()].keys, k)],
            (h - 1) as nat, d, nid),
    ensures
        ({
            let b = ns0.branches[n.spec_id()];
            let i = child_pos(b.keys, k);
            let ch = (h - 1) as nat;
            let ns2 = with_right(ns1, b.children[i], d, nid);
            let b2 = body_insert(b, i, sep, right_ref(d, nid));
            &&& 0 <= i < b.children.len()
            &&& h > 0
            &&& wf_branch_body(ns2, b2, ch, lo, hi, after)
            &&& children_contents(ns2, b2.children, ch).flatten() == insert_entry(content(ns0, n, h), k, v)
            &&& children_leaf_seq(ns2, b2.children, ch).len() > 0
            &&& children_leaf_seq(ns2, b2.children, ch)[0] == leaf_seq(ns0, n, h)[0]
            &&& forall|x: NodeRef<K, V>| #[trigger] in_children(ns2, b2.children, ch, x) ==> in_children(ns0, b.children, ch, x) || !ns0.has(x)
            &&& !in_children(ns0, b.children, ch, n)
            &&& forall|x: NodeRef<K, V>| ns0.has(x) && !in_tree(ns0, n, h, x) ==> #[trigger] ns0.same_node(ns2, x)
            &&& forall|x: NodeRef<K, V>| #[trigger] ns0.has(x) ==> ns2.has(x)
            &&& ns2.branches.contains_key(n.spec_id())
            &&& ns2.branches[n.spec_id()] == b
            &&& !has_key(content(ns0, n, h), k)
            &&& forall|x: NodeRef<K, V>| #[trigger] in_tree(ns0, n, h, x) == (x == n || in_children(ns0, b.children, ch, x))
            &&& forall|x: NodeRef<K, V>| ns2.has(x) && (in_children(ns0, b.children, ch, x) || !ns0.has(x))
                ==> #[trigger] in_children(ns2, b2.children, ch, x)
        }),
{
    let id = n.spec_id();
    let b = ns0.branches[id];
    let ch = (h - 1) as nat;
    let cs = b.children;
    let i = child_pos(b.keys, k);
    let c = cs[i];
    let clo = child_lo(b.keys, i, lo);
    let chi = child_hi(b.keys, i, hi);
    let cafter = child_after(ns0, cs, i, ch, after);
    let rn = right_ref(d, nid);
    let ns2 = with_right(ns1, c, d, nid);
    let ci1 = insert_entry(content(ns0, c, ch), k, v);
    lemma_branch_child_facts(ns0, n, h, lo, hi, after, k);
    lemma_parts_around(ns0, n, h, lo, hi, after, k);
    assert(split_ok(ns0, ns1, c, ch, clo, chi, cafter, d, sep, nid, ci1));
    // ns2 differs from ns1 only at the child and the new node
    assert forall|x: NodeRef<K, V>| ns0.has(x) && x != c implies #[trigger] ns1.same_node(ns2, x) by {
        assert(ns1.has(x));
        if x is Leaf && d is Leaf {
            assert(x.spec_id() != nid);
        }
        if x is Branch && d is Branch {
            assert(x.spec_id() != nid);
        }
    }
    assert forall|x: NodeRef<K, V>| ns0.has(x) && !in_tree(ns0, n, h, x) implies #[trigger] ns0.same_node(ns2, x) by {
        assert(!in_tree(ns0, c, ch, x));
        assert(ns0.same_node(ns1, x));
        assert(ns1.same_node(ns2, x));
    }
    assert forall|x: NodeRef<K, V>| #[trigger] ns0.has(x) implies ns2.has(x) by {
        assert(ns1.has(x));
    }
    assert(!in_tree(ns0, c, ch, n)) by {
        if in_tree(ns0, c, ch, n) {
            assert(in_children(ns0, cs, ch, n));
        }
    }
    assert(in_tree(ns0, c, ch, c));
    assert(n != c);
    assert(ns0.same_node(ns1, n));
    assert(ns1.same_node(ns2, n));
    assert(ns0.same_node(ns2, n));
    assert forall|x: NodeRef<K, V>| in_children(ns0, cs, ch, x) && !in_tree(ns0, c, ch, x) implies #[trigger] ns0.same_node(ns2, x) by {
        assert(ns0.has(x));
        assert(ns0.same_node(ns1, x));
        assert(x != c);
        assert(ns1.same_node(ns2, x));
    }
    assert(split_child_ok(ns0, ns2, b, ch, lo, hi, after, i, sep, rn));
    lemma_wf_branch_unfold(ns0, n, h, lo, hi, after);
    lemma_body_insert_child(ns0, ns2, b, ch, lo, hi, after, i, sep, rn);
    lemma_children_kept_insert(ns0, ns2, b, ch, lo, hi, after, i, sep, rn);
    let b2 = body_insert(b, i, sep, rn);
    let parts0 = children_contents(ns0, cs, ch);
    let mid = seq![content(ns2, c, ch), content(ns2, rn, ch)];
    lemma_flatten_two(content(ns2, c, ch), content(ns2, rn, ch));
    lemma_flatten_replace(parts0, i, mid);
    lemma_insert_entry_middle(parts0.subrange(0, i).flatten(), parts0[i], parts0.subrange(i + 1, parts0.len() as int).flatten(), k, v);
    assert forall|x: NodeRef<K, V>| #[trigger] in_tree(ns0, n, h, x) == (x == n || in_children(ns0, cs, ch, x)) by {
        lemma_in_tree_unfold(ns0, n, h, x);
    }
}

/// The branch with the separator and new child inserted, when it does not
/// split, took the insertion.
#[verifier::spinoff_prover]
pub(crate) proof fn lemma_insert_branch_grown<K: TreeKey, V>(
    ns0: NodeViews<K, V>,
    ns2: NodeViews<K, V>,
    ns3: NodeViews<K, V>,
    n: NodeRef<K, V>,
    h: nat,
    lo: Option<int>,
    hi: Option<int>,
    after: NodeId,
    k: K,
    v: V,
    b: BranchView<K, V>,
    b2: BranchView<K, V>,
)
    requires
        n is Branch,
        h > 0,
        b == ns0.branches[n.spec_id()],
        ns0.has(n),
        wf_branch_body(ns2, b2, (h - 1) as nat, lo, hi, after),
        children_contents(ns2, b2.children, (h - 1) as nat).flatten() == insert_entry(content(ns0, n, h), k, v),
        children_leaf_seq(ns2, b2.children, (h - 1) as nat).len() > 0,
        children_leaf_seq(ns2, b2.children, (h - 1) as nat)[0] == leaf_seq(ns0, n, h)[0],
        forall|x: NodeRef<K, V>| #[trigger] in_children(ns2, b2.children, (h - 1) as nat, x) ==> in_children(ns0, b.children, (h - 1) as nat, x) || !ns0.has(x),
        !in_children(ns0, b.children, (h - 1) as nat, n),
        forall|x: NodeRef<K, V>| ns0.has(x) && !in_tree(ns0, n, h, x) ==> #[trigger] ns0.same_node(ns2, x),
        forall|x: NodeRef<K, V>| #[trigger] ns0.has(x) ==> ns2.has(x),
        forall|x: NodeRef<K, V>| #[trigger] in_tree(ns0, n, h, x) == (x == n || in_children(ns0, b.children, (h - 1) as nat, x)),
        !has_key(content(ns0, n, h), k),
        ns2.branches.contains_key(n.spec_id()),
        ns3 == (NodeViews { leaves: ns2.leaves, branches: ns2.branches.insert(n.spec_id(), b2) }),
    ensures
        insert_done(ns0, ns3, n, h, lo, hi, after, k, v, InsertResult::Updated(None)),
{
    let ch = (h - 1) as nat;
    let id = n.spec_id();
    assert forall|x: NodeRef<K, V>| #[trigger] in_children(ns2, b2.children, ch, x) implies ns2.same_node(ns3, x) by {
        assert(x != n);
    }
    lemma_body_frame(ns2, ns3, b2, ch, lo, hi, after);
    assert forall|t: int| 0 <= t < b2.children.len() implies !#[trigger] in_tree(ns3, b2.children[t], ch, n) by {
        if in_tree(ns3, b2.children[t], ch, n) {
            assert(in_children(ns3, b2.children, ch, n));
        }
    }
    lemma_wf_branch_unfold(ns3, n, h, lo, hi, after);
    assert forall|x: NodeRef<K, V>| ns0.has(x) && !in_tree(ns0, n, h, x) implies #[trigger] ns0.same_node(ns3, x) by {
        assert(ns0.same_node(ns2, x));
        assert(x != n);
    }
    assert forall|x: NodeRef<K, V>| #[trigger] ns0.has(x) implies ns3.has(x) by {
        assert(ns2.has(x));
    }
    assert forall|x: NodeRef<K, V>| #[trigger] in_tree(ns3, n, h, x) implies in_tree(ns0, n, h, x) || !ns0.has(x) by {
        lemma_in_tree_unfold(ns3, n, h, x);
    }
}

/// The branch with the separator and new child inserted, when it does not
/// split, keeps every node of its old subtree and every new node.
proof fn lemma_kept_branch_grown<K: TreeKey, V>(
    ns0: NodeViews<K, V>,
    ns2: NodeViews<K, V>,
    ns3: NodeViews<K, V>,
    n: NodeRef<K, V>,
    h: nat,
    lo: Option<int>,
    hi: Option<int>,
    after: NodeId,
    b: BranchView<K, V>,
    b2: BranchView<K, V>,
)
    requires
        n is Branch,
        h > 0,
        b == ns0.branches[n.spec_id()],
        ns0.has(n),
        wf_branch_body(ns2, b2, (h - 1) as nat, lo, hi, after),
        forall|x: NodeRef<K, V>| #[trigger] in_children(ns2, b2.children, (h - 1) as nat, x) ==> in_children(ns0, b.children, (h - 1) as nat, x) || !ns0.has(x),
        !in_children(ns0, b.children, (h - 1) as nat, n),
        forall|x: NodeRef<K, V>| #[trigger] in_tree(ns0, n, h, x) == (x == n || in_children(ns0, b.children, (h - 1) as nat, x)),
        forall|x: NodeRef<K, V>| ns2.has(x) && (in_children(ns0, b.children, (h - 1) as nat, x) || !ns0.has(x))
            ==> #[trigger] in_children(ns2, b2.children, (h - 1) as nat, x),
        ns2.branches.contains_key(n.spec_id()),
        ns3 == (NodeViews { leaves: ns2.leaves, branches: ns2.branches.insert(n.spec_id(), b2) }),
    ensures
        forall|x: NodeRef<K, V>| ns3.has(x) && (in_tree(ns0, n, h, x) || !ns0.has(x)) ==> #[trigger] in_tree(ns3, n, h, x),
{
    let ch = (h - 1) as nat;
    assert forall|x: NodeRef<K, V>| #[trigger] in_children(ns2, b2.children, ch, x) implies ns2.same_node(ns3, x) by {
        assert(x != n);
    }
    lemma_body_frame(ns2, ns3, b2, ch, lo, hi, after);
    assert forall|x: NodeRef<K, V>| ns3.has(x) && (in_tree(ns0, n, h, x) || !ns0.has(x)) implies #[trigger] in_tree(ns3, n, h, x) by {
        lemma_in_tree_unfold(ns3, n, h, x);
        if x != n {
            assert(ns2.has(x));
            assert(in_children(ns2, b2.children, ch, x));
        }
    }
}

/// The branch with the separator and new child inserted, split around key
/// `mid`, is the left half in place and the right half to be stored.
#[verifier::spinoff_prover]
proof fn lemma_insert_branch_split<K: TreeKey, V>(
    ns0: NodeViews<K, V>,
    ns2: NodeViews<K, V>,
    ns3: NodeViews<K, V>,
    n: NodeRef<K, V>,
    h: nat,
    lo: Option<int>,
    hi: Option<int>,
    after: NodeId,
    k: K,
    v: V,
    b: BranchView<K, V>,
    b2: BranchView<K, V>,
    mid: int,
    rdata: BranchNode<K, V>,
)
    requires
        n is Branch,
        h > 0,
        b == ns0.branches[n.spec_id()],
        ns0.has(n),
        0 < mid < b2.keys.len(),
        wf_branch_body(ns2, b2, (h - 1) as nat, lo, hi, after),
        children_contents(ns2, b2.children, (h - 1) as nat).flatten() == insert_entry(content(ns0, n, h), k, v),
        children_leaf_seq(ns2, b2.children, (h - 1) as nat).len() > 0,
        children_leaf_seq(ns2, b2.children, (h - 1) as nat)[0] == leaf_seq(ns0, n, h)[0],
        forall|x: NodeRef<K, V>| #[trigger] in_children(ns2, b2.children, (h - 1) as nat, x) ==> in_children(ns0, b.children, (h - 1) as nat, x) || !ns0.has(x),
        !in_children(ns0, b.children, (h - 1) as nat, n),
        forall|x: NodeRef<K, V>| ns0.has(x) && !in_tree(ns0, n, h, x) ==> #[trigger] ns0.same_node(ns2, x),
        forall|x: NodeRef<K, V>| #[trigger] ns0.has(x) ==> ns2.has(x),
        forall|x: NodeRef<K, V>| #[trigger] in_tree(ns0, n, h, x) == (x == n || in_children(ns0, b.children, (h - 1) as nat, x)),
        !has_key(content(ns0, n, h), k),
        ns2.branches.contains_key(n.spec_id()),
        ns3 == (NodeViews { leaves: ns2.leaves, branches: ns2.branches.insert(n.spec_id(), body_left(b2, mid)) }),
        bview(rdata) == body_right(b2, mid),
        forall|x: NodeRef<K, V>| ns2.has(x) && (in_children(ns0, b.children, (h - 1) as nat, x) || !ns0.has(x))
            ==> #[trigger] in_children(ns2, b2.children, (h - 1) as nat, x),
    ensures
        insert_done(ns0, ns3, n, h, lo, hi, after, k, v, InsertResult::Split {
            old_value: None,
            new_node_data: SplitNodeData::Branch(rdata),
            separator_key: b2.keys[mid],
        }),
        insert_kept(ns0, ns3, n, h, InsertResult::Split {
            old_value: None,
            new_node_data: SplitNodeData::Branch(rdata),
            separator_key: b2.keys[mid],
        }),
{
    let ch = (h - 1) as nat;
    let id = n.spec_id();
    let d = SplitNodeData::Branch(rdata);
    let sep = b2.keys[mid];
    let bl = body_left(b2, mid);
    let br = body_right(b2, mid);
    let c1 = insert_entry(content(ns0, n, h), k, v);
    lemma_split_body(ns2, b2, ch, lo, hi, after, mid);
    lemma_body_has(ns2, b2, ch, lo, hi, after);
    assert forall|x: NodeRef<K, V>| ns0.has(x) && !in_tree(ns0, n, h, x) implies #[trigger] ns0.same_node(ns3, x) by {
        assert(ns0.same_node(ns2, x));
        assert(x != n);
    }
    assert forall|x: NodeRef<K, V>| #[trigger] ns0.has(x) implies ns3.has(x) by {
        assert(ns2.has(x));
    }
    assert forall|nid: NodeId| #[trigger] free_for(ns3, d, nid) implies split_ok(ns0, ns3, n, h, lo, hi, after, d, sep, nid, c1)
        && split_kept(ns0, ns3, n, h, d, nid) by {
        let ns4 = with_right(ns3, n, d, nid);
        let rn = right_ref(d, nid);
        assert(ns4 == (NodeViews { leaves: ns3.leaves, branches: ns3.branches.insert(nid, br) }));
        assert(nid != id);
        assert forall|x: NodeRef<K, V>| #[trigger] in_children(ns2, b2.children, ch, x) implies ns2.same_node(ns4, x) by {
            assert(x != n);
            assert(ns2.has(x));
            if x is Branch {
                assert(x.spec_id() != nid);
            }
        }
        assert forall|x: NodeRef<K, V>| #[trigger] in_children(ns2, bl.children, ch, x) implies ns2.same_node(ns4, x) by {
            assert(in_children(ns2, b2.children, ch, x));
        }
        assert forall|x: NodeRef<K, V>| #[trigger] in_children(ns2, br.children, ch, x) implies ns2.same_node(ns4, x) by {
            assert(in_children(ns2, b2.children, ch, x));
        }
        let la = leaf_seq(ns2, b2.children[mid + 1], ch)[0];
        lemma_body_frame(ns2, ns4, bl, ch, lo, Some(sep.rank()), la);
        lemma_body_frame(ns2, ns4, br, ch, Some(sep.rank()), hi, after);
        assert(ns4.branches[nid] == br);
        assert(ns4.branches[id] == bl);
        assert(leaf_seq(ns4, rn, h) == crate::tree_spec::children_leaf_seq(ns4, br.children, ch));
        assert forall|t: int| 0 <= t < bl.children.len() implies !#[trigger] in_tree(ns4, bl.children[t], ch, n) by {
            if in_tree(ns4, bl.children[t], ch, n) {
                assert(in_children(ns4, bl.children, ch, n));
                assert(in_children(ns2, b2.children, ch, n));
            }
        }
        assert forall|t: int| 0 <= t < br.children.len() implies !#[trigger] in_tree(ns4, br.children[t], ch, rn) by {
            if in_tree(ns4, br.children[t], ch, rn) {
                assert(in_children(ns4, br.children, ch, rn));
                assert(in_children(ns2, b2.children, ch, rn));
                assert(ns2.has(rn));
            }
        }
        lemma_wf_branch_unfold(ns4, n, h, lo, Some(sep.rank()), leaf_seq(ns4, rn, h)[0]);
        lemma_wf_branch_unfold(ns4, rn, h, Some(sep.rank()), hi, after);
        lemma_flatten_add(children_contents(ns2, bl.children, ch), children_contents(ns2, br.children, ch));
        assert forall|x: NodeRef<K, V>| #[trigger] in_tree(ns4, n, h, x) implies in_tree(ns0, n, h, x) || !ns0.has(x) by {
            lemma_in_tree_unfold(ns4, n, h, x);
            if x != n {
                assert(in_children(ns2, bl.children, ch, x));
                assert(in_children(ns2, b2.children, ch, x));
            }
        }
        assert forall|x: NodeRef<K, V>| #[trigger] in_tree(ns4, rn, h, x) implies in_tree(ns0, n, h, x) || !ns0.has(x) by {
            lemma_in_tree_unfold(ns4, rn, h, x);
            if x != rn {
                assert(in_children(ns2, br.children, ch, x));
                assert(in_children(ns2, b2.children, ch, x));
            } else {
                assert(!ns3.has(rn));
            }
        }
        assert forall|x: NodeRef<K, V>| #[trigger] in_tree(ns4, n, h, x) implies !in_tree(ns4, rn, h, x) by {
            lemma_in_tree_unfold(ns4, n, h, x);
            lemma_in_tree_unfold(ns4, rn, h, x);
            if x == n {
                if in_children(ns4, br.children, ch, n) {
                    assert(in_children(ns2, b2.children, ch, n));
                }
            } else {
                assert(in_children(ns2, bl.children, ch, x));
                if x == rn {
                    assert(ns2.has(rn));
                }
            }
        }
        assert forall|x: NodeRef<K, V>| ns4.has(x) && (in_tree(ns0, n, h, x) || !ns0.has(x)) implies in_tree(ns4, n, h, x)
            || in_tree(ns4, rn, h, x) by {
            lemma_in_tree_unfold(ns4, n, h, x);
            lemma_in_tree_unfold(ns4, rn, h, x);
            if x != n && x != rn {
                assert(ns2.has(x));
                assert(in_children(ns2, b2.children, ch, x));
                let t = choose|t: int| 0 <= t < b2.children.len() && #[trigger] in_tree(ns2, b2.children[t], ch, x);
                if t <= mid {
                    assert(bl.children[t] == b2.children[t]);
                    assert(in_children(ns2, bl.children, ch, x));
                } else {
                    assert(br.children[t - mid - 1] == b2.children[t]);
                    assert(in_children(ns2, br.children, ch, x));
                }
            }
        }
    }
}

/// The root's two halves under a new root branch at `rid` form a
/// well-formed tree one level higher with the new entries.
#[verifier::spinoff_prover]
pub(crate) proof fn lemma_new_root<K: TreeKey, V>(
    ns0: NodeViews<K, V>,
    ns1: NodeViews<K, V>,
    ns3: NodeViews<K, V>,
    root: NodeRef<K, V>,
    h: nat,
    d: SplitNodeData<K, V>,
    sep: K,
    nid: NodeId,
    rid: NodeId,
    c1: Seq<(K, V)>,
)
    requires
        split_ok(ns0, ns1, root, h, None, None, NULL_NODE, d, sep, nid, c1),
        !with_right(ns1, root, d, nid).branches.contains_key(rid),
        ns3 == (NodeViews {
            leaves: with_right(ns1, root, d, nid).leaves,
            branches: with_right(ns1, root, d, nid).branches.insert(
                rid,
                BranchView { keys: seq![sep], children: seq![root, right_ref(d, nid)] },
            ),
        }),
    ensures
        wf_node(ns3, branch_ref(rid), h + 1, None, None, NULL_NODE),
        content(ns3, branch_ref(rid), h + 1) == c1,
        forall|x: NodeRef<K, V>| in_tree(with_right(ns1, root, d, nid), root, h, x)
            || in_tree(with_right(ns1, root, d, nid), right_ref(d, nid), h, x) ==> #[trigger] in_tree(ns3, branch_ref(rid), h + 1, x),
{
    let ns2 = with_right(ns1, root, d, nid);
    let rn = right_ref(d, nid);
    let nr = branch_ref::<K, V>(rid);
    let b = BranchView { keys: seq![sep], children: seq![root, rn] };
    let s = Some(sep.rank());
    let la = leaf_seq(ns2, rn, h)[0];
    lemma_wf_basic(ns2, root, h, None, s, la);
    lemma_wf_basic(ns2, rn, h, s, None, NULL_NODE);
    assert forall|x: NodeRef<K, V>| #[trigger] in_tree(ns2, root, h, x) implies ns2.same_node(ns3, x) by {
        assert(ns2.has(x));
        if x is Branch {
            assert(x.spec_id() != rid);
        }
    }
    assert forall|x: NodeRef<K, V>| #[trigger] in_tree(ns2, rn, h, x) implies ns2.same_node(ns3, x) by {
        assert(ns2.has(x));
        if x is Branch {
            assert(x.spec_id() != rid);
        }
    }
    crate::tree_spec::lemma_frame(ns2, ns3, root, h, None, s, la);
    crate::tree_spec::lemma_frame(ns2, ns3, rn, h, s, None, NULL_NODE);
    assert(b.children[0] == root && b.children[1] == rn);
    assert(child_after(ns3, b.children, 0, h, NULL_NODE) == la);
    assert(child_after(ns3, b.children, 1, h, NULL_NODE) == NULL_NODE);
    assert(child_lo(b.keys, 0, None) == None::<int>);
    assert(child_hi(b.keys, 0, None) == s);
    assert(child_lo(b.keys, 1, None) == s);
    assert(child_hi(b.keys, 1, None) == None::<int>);
    assert forall|t: int| 0 <= t < b.children.len() implies #[trigger] wf_node(ns3, b.children[t], h,
        child_lo(b.keys, t, None), child_hi(b.keys, t, None), child_after(ns3, b.children, t, h, NULL_NODE)) by {
    }
    assert forall|i: int, j: int, x: NodeRef<K, V>| 0 <= i < j < b.children.len() && #[trigger] in_tree(ns3, b.children[i], h, x)
        implies !#[trigger] in_tree(ns3, b.children[j], h, x) by {
        assert(i == 0 && j == 1);
        assert(in_tree(ns2, root, h, x));
    }
    assert forall|t: int| 0 <= t < b.children.len() implies !#[trigger] in_tree(ns3, b.children[t], h, nr) by {
        if t == 0 {
            if in_tree(ns3, root, h, nr) {
                assert(in_tree(ns2, root, h, nr));
            }
        } else {
            if in_tree(ns3, rn, h, nr) {
                assert(in_tree(ns2, rn, h, nr));
            }
        }
    }
    assert(ns3.branches[rid] == b);
    assert(wf_branch(ns3, b, h, None, None, NULL_NODE, nr));
    lemma_wf_branch_unfold(ns3, nr, h + 1, None, None, NULL_NODE);
    crate::tree_spec::lemma_children_contents(ns3, b.children, h);
    assert(children_contents(ns3, b.children, h) =~= seq![content(ns3, root, h), content(ns3, rn, h)]);
    lemma_flatten_two(content(ns3, root, h), content(ns3, rn, h));
    assert forall|x: NodeRef<K, V>| in_tree(ns2, root, h, x) || in_tree(ns2, rn, h, x) implies #[trigger] in_tree(ns3, nr, h + 1, x) by {
        lemma_in_tree_unfold(ns3, nr, h + 1, x);
        if in_tree(ns2, root, h, x) {
            assert(in_tree(ns3, b.children[0], h, x));
        } else {
            assert(in_tree(ns3, b.children[1], h, x));
        }
    }
}

impl<K: TreeKey, V> BPlusTreeMap<K, V> {
    /// Insert into a leaf by ID.
    fn insert_into_leaf(
        &mut self,
        leaf_id: NodeId,
        key: K,
        value: V,
        Ghost(lo): Ghost<Option<int>>,
        Ghost(hi): Ghost<Option<int>>,
        Ghost(after): Ghost<NodeId>,
    ) -> (r: InsertResult<K, V>)
        requires
            old(self).arenas_ok(),
            wf_node(old(self).views(), leaf_ref(leaf_id), 0, lo, hi, after),
            rank_in(key.rank(), lo, hi),
        ensures
            final(self).arenas_ok(),
            final(self).capacity == old(self).capacity,
            final(self).root == old(self).root,
            final(self).height == old(self).height,
            final(self).leaf_arena.slot_count() == old(self).leaf_arena.slot_count(),
            final(self).branch_arena == old(self).branch_arena,
            insert_done(old(self).views(), final(self).views(), leaf_ref(leaf_id), 0, lo, hi, after, key, value, r),
            insert_kept(old(self).views(), final(self).views(), leaf_ref(leaf_id), 0, r),
            split_capacity(r, old(self).capacity),
            leaf_insert_shape(old(self).views(), final(self).views(), leaf_ref(leaf_id), old(self).capacity as int, key,
                value, r),
            old(self).half_full() ==> final(self).half_full(),
            r is Split ==> node_keys_len(*final(self), leaf_ref(leaf_id)) >= final(self).capacity / 2,
    {
        let ghost ns0 = self.views();
        let ghost old_leaf = self.leaf_arena@[leaf_id];
        proof {
            lemma_zip(old_leaf.keys@, old_leaf.values@);
            lemma_keys_in_zip(old_leaf.keys@, old_leaf.values@, lo, hi);
            assert(old_leaf.capacity == self.capacity);
        }
        let r = match self.leaf_arena.get_mut(leaf_id) {
            Some(leaf) => insert_into_leaf_node(leaf, key, value),
            None => InsertResult::Updated(None),
        };
        let ghost rr = r;
        proof {
            let n = leaf_ref::<K, V>(leaf_id);
            let nl = self.leaf_arena@[leaf_id];
            let ns1 = self.views();
            let c0 = old_leaf.entries();
            let c1 = insert_entry(c0, key, value);
            assert(ns1.leaves =~= ns0.leaves.insert(leaf_id, lview(nl)));
            assert(ns1.branches =~= ns0.branches);
            assert(content(ns0, n, 0) == c0);
            lemma_insert_entry_sorted(c0, key, value);
            lemma_insert_entry_in(c0, key, value, lo, hi);
            lemma_zip(nl.keys@, nl.values@);
            assert(forall|x: NodeRef<K, V>| #[trigger] in_tree(ns0, n, 0, x) == (x == n));
            assert(forall|x: NodeRef<K, V>| #[trigger] in_tree(ns1, n, 0, x) == (x == n));
            assert forall|x: NodeRef<K, V>| ns0.has(x) && !in_tree(ns0, n, 0, x) implies #[trigger] ns0.same_node(ns1, x) by {
                if x is Leaf {
                    assert(x.spec_id() != leaf_id);
                }
            }
            assert forall|id: NodeId| #[trigger] self.leaf_arena@.contains_key(id) implies self.leaf_arena@[id].capacity == self.capacity by {
                if id != leaf_id {
                    assert(old(self).leaf_arena@.contains_key(id));
                }
            }
            match rr {
                InsertResult::Updated(old_v) => {
                    lemma_keys_in_zip(nl.keys@, nl.values@, lo, hi);
                    assert(content(ns1, n, 0) == c1);
                    assert forall|x: NodeRef<K, V>| ns1.has(x) && (in_tree(ns0, n, 0, x) || !ns0.has(x)) implies
                        #[trigger] in_tree(ns1, n, 0, x) by {
                        if x is Leaf && x.spec_id() == leaf_id {
                            assert(x == n);
                        }
                    }
                },
                InsertResult::Split { old_value, new_node_data, separator_key } => {
                    let right = new_node_data->Leaf_0;
                    lemma_zip(right.keys@, right.values@);
                    lemma_halves_in(c1, nl.entries(), right.entries(), lo, hi);
                    assert(right.entries()[0].0 == separator_key);
                    assert(entry_keys(c0) =~= old_leaf.keys@);
                    assert(content(ns1, n, 0) == nl.entries());
                    assert(nl.entries() =~= c1.subrange(0, nl.entries().len() as int));
                    lemma_keys_in_zip(nl.keys@, nl.values@, lo, Some(separator_key.rank()));
                    lemma_keys_in_zip(right.keys@, right.values@, Some(separator_key.rank()), hi);
                    assert forall|nid: NodeId| #[trigger] free_for(ns1, new_node_data, nid) implies split_ok(
                        ns0, ns1, n, 0, lo, hi, after, new_node_data, separator_key, nid, c1) by {
                        let ns2 = with_right(ns1, n, new_node_data, nid);
                        let rn = right_ref(new_node_data, nid);
                        assert(nid != leaf_id);
                        assert(ns2.leaves[nid] == lview(right));
                        assert(leaf_seq(ns2, rn, 0)[0] == nid);
                        assert(wf_node(ns2, n, 0, lo, Some(separator_key.rank()), nid));
                        assert(wf_node(ns2, rn, 0, Some(separator_key.rank()), hi, after));
                        assert(content(ns2, n, 0) == nl.entries());
                        assert(content(ns2, rn, 0) == right.entries());
                        assert(forall|x: NodeRef<K, V>| #[trigger] in_tree(ns2, n, 0, x) == (x == n));
                        assert(forall|x: NodeRef<K, V>| #[trigger] in_tree(ns2, rn, 0, x) == (x == rn));
                    }
                    assert forall|nid: NodeId| #[trigger] free_for(ns1, new_node_data, nid) implies split_kept(
                        ns0, ns1, n, 0, new_node_data, nid) by {
                        let ns2 = with_right(ns1, n, new_node_data, nid);
                        let rn = right_ref(new_node_data, nid);
                        assert(forall|x: NodeRef<K, V>| #[trigger] in_tree(ns2, n, 0, x) == (x == n));
                        assert(forall|x: NodeRef<K, V>| #[trigger] in_tree(ns2, rn, 0, x) == (x == rn));
                        assert forall|x: NodeRef<K, V>| ns2.has(x) && (in_tree(ns0, n, 0, x) || !ns0.has(x)) implies
                            in_tree(ns2, n, 0, x) || in_tree(ns2, rn, 0, x) by {
                            if x != n && x != rn {
                                if x is Leaf {
                                    assert(x.spec_id() != nid);
                                }
                            }
                        }
                    }
                },
                InsertResult::Error(_) => {},
            }
        }
        r
    }

    /// Recursively insert below `node`, a subtree of height `h` within the
    /// key bounds `lo`..`hi` whose last leaf links to `after`. When a child
    /// splits, its right half is stored here and its separator inserted into
    /// this branch, which may split in turn; a split is returned to the
    /// caller with the right half not yet stored.
    pub fn insert_recursive(
        &mut self,
        node: &NodeRef<K, V>,
        key: K,
        value: V,
        Ghost(h): Ghost<nat>,
        Ghost(lo): Ghost<Option<int>>,
        Ghost(hi): Ghost<Option<int>>,
        Ghost(after): Ghost<NodeId>,
    ) -> (r: InsertResult<K, V>)
        requires
            old(self).arenas_ok(),
            wf_node(old(self).views(), *node, h, lo, hi, after),
            rank_in(key.rank(), lo, hi),
            old(self).leaf_arena.slot_count() < NULL_NODE,
            old(self).branch_arena.slot_count() + h < NULL_NODE,
        ensures
            final(self).arenas_ok(),
            final(self).capacity == old(self).capacity,
            final(self).root == old(self).root,
            final(self).height == old(self).height,
            final(self).leaf_arena.slot_count() <= old(self).leaf_arena.slot_count() + (if h == 0 {
                0int
            } else {
                1int
            }),
            final(self).branch_arena.slot_count() <= old(self).branch_arena.slot_count() + (if h == 0 {
                0int
            } else {
                h - 1
            }),
            insert_done(old(self).views(), final(self).views(), *node, h, lo, hi, after, key, value, r),
            insert_kept(old(self).views(), final(self).views(), *node, h, r),
            split_capacity(r, old(self).capacity),
            *node is Leaf ==> leaf_insert_shape(old(self).views(), final(self).views(), *node, old(self).capacity as int,
                key, value, r),
            old(self).half_full() ==> final(self).half_full(),
            r is Split ==> node_keys_len(*final(self), *node) >= final(self).capacity / 2,
        decreases h,
    {
        proof {
            lemma_wf_basic(self.views(), *node, h, lo, hi, after);
        }
        match node {
            NodeRef::Leaf(id, _) => {
                self.insert_into_leaf(*id, key, value, Ghost(lo), Ghost(hi), Ghost(after))
            },
            NodeRef::Branch(id, _) => {
                let id = *id;
                let ghost ns0 = self.views();
                let ghost b = ns0.branches[id];
                let ghost ch = (h - 1) as nat;
                proof {
                    lemma_branch_child_facts(ns0, *node, h, lo, hi, after, key);
                    assert(b == bview(self.branch_arena@[id]));
                    assert(self.branch_arena@.contains_key(id));
                    assert(0 <= child_pos(b.keys, key) < b.children.len());
                }
                let ghost old_self = *self;
                let found = self.get_child_for_key(id, &key);
                proof {
                    let bb = self.branch_arena@[id];
                    let ii = child_pos(bb.keys@, key);
                    assert(bb.keys@ == b.keys);
                    assert(ii == child_pos(b.keys, key));
                    assert(ii < bb.children@.len());
                    assert(bb.children@.len() == bb.children.len());
                    assert((ii as usize) as int == ii);
                    assert(found == Some((ii as usize, bb.children@[ii])));
                }
                let (child_index, child_ref) = match found {
                    Some(info) => info,
                    None => {
                        return InsertResult::Updated(None);
                    },
                };
                let ghost i = child_index as int;
                proof {
                    assert(b.keys == self.branch_arena@[id].keys@);
                    assert(b.children == self.branch_arena@[id].children@);
                    assert(old_self == *self);
                    assert(self.branch_arena@.contains_key(id));
                    assert(i == child_pos(b.keys, key));
                    assert(child_ref == b.children[i]);
                }
                let ghost clo = child_lo(b.keys, i, lo);
                let ghost chi = child_hi(b.keys, i, hi);
                let ghost cafter = child_after(ns0, b.children, i, ch, after);
                let child_result = self.insert_recursive(
                    &child_ref,
                    key,
                    value,
                    Ghost(ch),
                    Ghost(clo),
                    Ghost(chi),
                    Ghost(cafter),
                );
                let ghost ns1 = self.views();
                match child_result {
                    InsertResult::Updated(old_value) => {
                        proof {
                            lemma_insert_branch_updated(ns0, ns1, *node, h, lo, hi, after, key, value, old_value);
                            lemma_kept_branch_updated(ns0, ns1, *node, h, lo, hi, after, key, value, old_value);
                        }
                        InsertResult::Updated(old_value)
                    },
                    InsertResult::Error(error) => InsertResult::Error(error),
                    InsertResult::Split { old_value, new_node_data, separator_key } => {
                        let ghost d = new_node_data;
                        let ghost self1 = *self;
                        proof {
                            lemma_wf_basic(ns0, child_ref, ch, clo, chi, cafter);
                        }
                        let new_node = match new_node_data {
                            SplitNodeData::Leaf(new_leaf_data) => {
                                let new_id = self.allocate_leaf(new_leaf_data);
                                if let NodeRef::Leaf(original_id, _) = child_ref {
                                    if let Some(original_leaf) = self.get_leaf_mut(original_id) {
                                        original_leaf.next = new_id;
                                    }
                                }
                                NodeRef::Leaf(new_id, PhantomData)
                            },
                            SplitNodeData::Branch(new_branch_data) => {
                                let new_id = self.allocate_branch(new_branch_data);
                                NodeRef::Branch(new_id, PhantomData)
                            },
                            SplitNodeData::CompressedBranch(_) => {
                                // A split below this tree never hands back a compressed branch.
                                return InsertResult::Updated(None);
                            },
                        };
                        let ghost nid = new_node.spec_id();
                        let ghost ns2 = self.views();
                        proof {
                            assert(new_node == right_ref(d, nid));
                            assert(free_for(ns1, d, nid));
                            assert(ns2.leaves =~= with_right(ns1, child_ref, d, nid).leaves);
                            assert(ns2.branches =~= with_right(ns1, child_ref, d, nid).branches);
                            assert(ns2 == with_right(ns1, child_ref, d, nid));
                            lemma_insert_child_split(ns0, ns1, *node, h, lo, hi, after, key, value, d, separator_key, nid);
                            assert(self.branch_arena@.contains_key(id));
                            assert forall|lid: NodeId| #[trigger] self.leaf_arena@.contains_key(lid) implies self.leaf_arena@[lid].capacity == self.capacity
                                && self.leaf_arena@[lid].keys@.len() <= self.capacity by {
                                if self1.leaf_arena@.contains_key(lid) {
                                }
                            }
                            assert forall|bid: NodeId| #[trigger] self.branch_arena@.contains_key(bid) implies self.branch_arena@[bid].capacity == self.capacity
                                && self.branch_arena@[bid].keys@.len() <= self.capacity by {
                                if self1.branch_arena@.contains_key(bid) {
                                }
                            }
                        }
                        let ghost self2 = *self;
                        let split = match self.get_branch_mut(id) {
                            Some(branch) => branch.insert_child_and_split_if_needed(
                                child_index,
                                separator_key,
                                new_node,
                            ),
                            None => None,
                        };
                        let ghost ns3 = self.views();
                        let ghost b2 = body_insert(b, i, separator_key, new_node);
                        proof {
                            assert(self2.branch_arena@.contains_key(id));
                            assert(self2.branch_arena@[id].keys@.len() <= self.capacity);
                            assert forall|bid: NodeId| #[trigger] self.branch_arena@.contains_key(bid) implies self.branch_arena@[bid].capacity == self.capacity
                                && self.branch_arena@[bid].keys@.len() <= self.capacity by {
                                if bid != id {
                                    assert(self2.branch_arena@.contains_key(bid));
                                }
                            }
                        }
                        match split {
                            Some((new_branch_data, promoted_key)) => {
                                proof {
                                    let mid = (self.capacity / 2) as int;
                                    assert(ns3.leaves == ns2.leaves);
                                    assert(ns3.branches =~= ns2.branches.insert(id, body_left(b2, mid)));
                                    assert(bview(new_branch_data) =~= body_right(b2, mid));
                                    lemma_insert_branch_split(ns0, ns2, ns3, *node, h, lo, hi, after, key, value, b, b2, mid, new_branch_data);
                                }
                                InsertResult::Split {
                                    old_value,
                                    new_node_data: SplitNodeData::Branch(new_branch_data),
                                    separator_key: promoted_key,
                                }
                            },
                            None => {
                                proof {
                                    assert(ns3.leaves == ns2.leaves);
                                    assert(ns3.branches =~= ns2.branches.insert(id, b2));
                                    lemma_insert_branch_grown(ns0, ns2, ns3, *node, h, lo, hi, after, key, value, b, b2);
                                    lemma_kept_branch_grown(ns0, ns2, ns3, *node, h, lo, hi, after, b, b2);
                                }
                                InsertResult::Updated(old_value)
                            },
                        }
                    },
                }
            },
        }
    }

    /// Room in both arenas for what one insertion may allocate: a leaf, and
    /// a branch per level plus a new root.
    pub open spec fn has_room(&self) -> bool {
        &&& self.leaf_arena.slot_count() < NULL_NODE
        &&& self.branch_arena.slot_count() + self.height@ + 1 < NULL_NODE
    }

    /// Room in both arenas for what `n` insertions in a row may allocate:
    /// a leaf each, and a branch per level plus a new root each, the tree
    /// growing by at most one level per insertion.
    pub open spec fn has_room_for(&self, n: nat) -> bool {
        &&& self.leaf_arena.slot_count() + n <= NULL_NODE
        &&& self.branch_arena.slot_count() + n * (self.height@ + n) < NULL_NODE
    }

    /// Whether the arenas have room for the nodes one insertion may create.
    pub fn has_room_for_insert(&self) -> (r: bool)
        requires
            self.wf(),
        ensures
            r == self.has_room(),
    {
        let leaves = self.leaf_arena.slot_total() as u64;
        let branches = self.branch_arena.slot_total() as u64;
        let height = self.tree_height() as u64;
        leaves < NULL_NODE as u64 && branches < NULL_NODE as u64 && height < NULL_NODE as u64 && branches + height + 1
            < NULL_NODE as u64
    }

    /// The height of the tree, counted down the first children; it stops
    /// counting at `usize::MAX`.
    fn tree_height(&self) -> (r: usize)
        requires
            self.wf(),
        ensures
            r == (if self.height@ < usize::MAX { self.height@ } else { usize::MAX as nat }),
    {
        let ghost ns = self.views();
        let mut current = self.root;
        let mut count: usize = 0;
        let ghost mut h: nat = self.height@;
        let ghost mut lo: Option<int> = None;
        let ghost mut hi: Option<int> = None;
        let ghost mut after: NodeId = NULL_NODE;
        loop
            invariant
                self.wf(),
                ns == self.views(),
                wf_node(ns, current, h, lo, hi, after),
                h <= self.height@,
                count == (if self.height@ - h < usize::MAX { (self.height@ - h) as nat } else { usize::MAX as nat }),
            decreases h,
        {
            proof {
                lemma_wf_basic(ns, current, h, lo, hi, after);
            }
            match current {
                NodeRef::Leaf(_, _) => {
                    return count;
                },
                NodeRef::Branch(id, _) => {
                    let ghost b = ns.branches[id];
                    let ghost ch = (h - 1) as nat;
                    proof {
                        lemma_wf_branch_unfold(ns, current, h, lo, hi, after);
                        assert(wf_node(ns, b.children[0], ch, child_lo(b.keys, 0, lo), child_hi(b.keys, 0, hi),
                            child_after(ns, b.children, 0, ch, after)));
                    }
                    match self.branch_arena.get(id) {
                        Some(branch) => {
                            proof {
                                assert(b == bview(*branch));
                            }
                            if branch.children.len() == 0 {
                                return count;
                            }
                            proof {
                                lo = child_lo(b.keys, 0, lo);
                                hi = child_hi(b.keys, 0, hi);
                                after = child_after(ns, b.children, 0, ch, after);
                                h = ch;
                            }
                            current = branch.children[0];
                            if count < usize::MAX {
                                count = count + 1;
                            }
                        },
                        None => {
                            return count;
                        },
                    }
                },
            }
        }
    }

    /// Create a new root for when the current root splits: its one key is
    /// the separator, its children the old root and the new node. The old
    /// root is taken out of `self.root`, which is left pointing nowhere
    /// until the caller installs the new root.
    pub fn new_root(&mut self, new_node: NodeRef<K, V>, separator_key: K) -> (r: BranchNode<K, V>)
        requires
            old(self).capacity < usize::MAX,
        ensures
            r.capacity == old(self).capacity,
            r.keys@ == seq![separator_key],
            r.children@ == seq![old(self).root, new_node],
            final(self).root == leaf_ref::<K, V>(NULL_NODE),
            final(self).capacity == old(self).capacity,
            final(self).leaf_arena == old(self).leaf_arena,
            final(self).branch_arena == old(self).branch_arena,
            final(self).height == old(self).height,
    {
        let mut new_root = BranchNode::new(self.capacity);
        new_root.keys.push(separator_key);
        let mut old_root = NodeRef::Leaf(NULL_NODE, PhantomData);
        std::mem::swap(&mut old_root, &mut self.root);
        new_root.children.push(old_root);
        new_root.children.push(new_node);
        proof {
            assert(new_root.keys@ =~= seq![separator_key]);
            assert(new_root.children@ =~= seq![old(self).root, new_node]);
        }
        new_root
    }

    /// Insert a key-value pair into the tree. If the key already exists,
    /// its value is replaced and the old value returned; otherwise `None`.
    pub fn insert(&mut self, key: K, value: V) -> (r: Option<V>)
        requires
            old(self).wf(),
            old(self).has_room(),
        ensures
            final(self).wf(),
            final(self).capacity == old(self).capacity,
            final(self).entries() == insert_entry(old(self).entries(), key, value),
            final(self)@ == old(self)@.insert(key, value),
            r == (if old(self)@.contains_key(key) {
                Some(old(self)@[key])
            } else {
                None
            }),
            final(self).leaf_arena.slot_count() <= old(self).leaf_arena.slot_count() + 1,
            final(self).branch_arena.slot_count() <= old(self).branch_arena.slot_count() + old(self).height@ + 1,
            final(self).height@ <= old(self).height@ + 1,
            old(self).half_full() ==> final(self).half_full(),
            old(self).half_full() ==> final(self).check_invariants_spec(),
            old(self).arenas_match_tree() ==> final(self).arenas_match_tree(),
            old(self).root is Leaf ==> root_leaf_insert_shape(*old(self), *final(self), key, value),
    {
        let ghost ns0 = self.views();
        let ghost h = self.height@;
        let ghost c0 = self.entries();
        let ghost c1 = insert_entry(c0, key, value);
        proof {
            self.lemma_entries_sorted();
            lemma_map_insert_entry(c0, key, value);
            self.lemma_arenas_match_iff();
        }
        let root = self.root;
        let result = self.insert_recursive(&root, key, value, Ghost(h), Ghost(None), Ghost(None), Ghost(NULL_NODE));
        let ghost ns1 = self.views();
        let old_value = match result {
            InsertResult::Updated(old_value) => {
                proof {
                    if old(self).no_stray_nodes() {
                        assert forall|x: NodeRef<K, V>| #[trigger] ns1.has(x) implies in_tree(ns1, root, h, x) by {
                            if ns0.has(x) {
                                assert(in_tree(ns0, root, h, x));
                            }
                        }
                        assert(self.no_stray_nodes());
                    }
                }
                old_value
            },
            InsertResult::Error(_error) => None,
            InsertResult::Split { old_value, new_node_data, separator_key } => {
                let ghost d = new_node_data;
                let ghost self1 = *self;
                proof {
                    lemma_wf_basic(ns0, root, h, None, None, NULL_NODE);
                }
                let new_node_ref = match new_node_data {
                    SplitNodeData::Leaf(new_leaf_data) => {
                        let new_id = self.allocate_leaf(new_leaf_data);
                        if let NodeRef::Leaf(original_id, _) = self.root {
                            if let Some(leaf) = self.get_leaf_mut(original_id) {
                                leaf.next = new_id;
                            }
                        }
                        NodeRef::Leaf(new_id, PhantomData)
                    },
                    SplitNodeData::Branch(new_branch_data) => {
                        let new_id = self.allocate_branch(new_branch_data);
                        NodeRef::Branch(new_id, PhantomData)
                    },
                    SplitNodeData::CompressedBranch(_) => {
                        // A split below this tree never hands back a compressed branch.
                        return None;
                    },
                };
                let ghost nid = new_node_ref.spec_id();
                let ghost ns2 = self.views();
                proof {
                    assert(new_node_ref == right_ref(d, nid));
                    assert(free_for(ns1, d, nid));
                    assert(ns2.leaves =~= with_right(ns1, root, d, nid).leaves);
                    assert(ns2.branches =~= with_right(ns1, root, d, nid).branches);
                    assert(split_ok(ns0, ns1, root, h, None, None, NULL_NODE, d, separator_key, nid, c1));
                }
                let new_root = self.new_root(new_node_ref, separator_key);
                let root_id = self.allocate_branch(new_root);
                self.root = NodeRef::Branch(root_id, PhantomData);
                self.height = Ghost(h + 1);
                proof {
                    let ns3 = self.views();
                    assert(ns3.leaves == ns2.leaves);
                    assert(ns3.branches =~= ns2.branches.insert(root_id, BranchView { keys: seq![separator_key], children: seq![root, right_ref(d, nid)] }));
                    lemma_new_root(ns0, ns1, ns3, root, h, d, separator_key, nid, root_id, c1);
                    if old(self).no_stray_nodes() {
                        assert(ns2 == with_right(ns1, root, d, nid));
                        assert(split_kept(ns0, ns1, root, h, d, nid));
                        let rn = right_ref(d, nid);
                        assert forall|x: NodeRef<K, V>| #[trigger] ns3.has(x) implies in_tree(ns3, self.root, self.height@, x) by {
                            if x != self.root {
                                assert(ns2.has(x));
                                if ns0.has(x) {
                                    assert(in_tree(ns0, root, h, x));
                                }
                                assert(in_tree(ns2, root, h, x) || in_tree(ns2, rn, h, x));
                            }
                        }
                        assert(self.no_stray_nodes());
                    }
                    if root is Leaf {
                        lemma_wf_basic(ns0, root, h, None, None, NULL_NODE);
                        let cs = seq![root, right_ref(d, nid)];
                        assert(ns3.branches[root_id].children == cs);
                        assert(cs.drop_last() =~= seq![root]);
                        assert(seq![root].drop_last() =~= Seq::<NodeRef<K, V>>::empty());
                        reveal_with_fuel(crate::tree_spec::leaf_seqs_of, 3);
                        assert(d is Leaf);
                        assert(right_ref(d, nid) is Leaf);
                        assert(crate::tree_spec::leaf_seqs_of(ns3, seq![root], 0) =~= seq![seq![root.spec_id()]]);
                        assert(crate::tree_spec::leaf_seqs_of(ns3, cs, 0) =~= seq![seq![root.spec_id()], seq![nid]]);
                        crate::flatten::lemma_flatten_two(seq![root.spec_id()], seq![nid]);
                        assert(content(ns3, root, 0) == content(ns1, root, 0));
                    }
                    assert forall|lid: NodeId| #[trigger] self.leaf_arena@.contains_key(lid) implies self.leaf_arena@[lid].capacity == self.capacity by {
                        if self1.leaf_arena@.contains_key(lid) {
                        }
                    }
                    assert forall|bid: NodeId| #[trigger] self.branch_arena@.contains_key(bid) implies self.branch_arena@[bid].capacity == self.capacity by {
                        if self1.branch_arena@.contains_key(bid) {
                        }
                    }
                }
                old_value
            },
        };
        proof {
            lemma_wf_basic(ns0, root, h, None, None, NULL_NODE);
            if old_value is Some {
                lemma_map_get(c0, key, old_value->Some_0);
            }
            if old(self).half_full() {
                crate::occupancy::lemma_tree_checks(*self);
            }
            self.lemma_arenas_match_iff();
        }
        old_value
    }
}


/// The views with the value at position `p` of leaf `lid` set to `v`.
pub open spec fn with_value<K, V>(ns: NodeViews<K, V>, lid: NodeId, p: int, v: V) -> NodeViews<K, V> {
    NodeViews {
        leaves: ns.leaves.insert(lid, LeafView {
            keys: ns.leaves[lid].keys,
            values: ns.leaves[lid].values.update(p, v),
            next: ns.leaves[lid].next,
        }),
        branches: ns.branches,
    }
}

/// Setting the value of `k` in the leaf that holds it, reached by
/// descending toward `k`, is an insertion of `(k, v)` that replaced the
/// old value.
pub proof fn lemma_value_set<K: TreeKey, V>(
    ns0: NodeViews<K, V>,
    n: NodeRef<K, V>,
    h: nat,
    lo: Option<int>,
    hi: Option<int>,
    after: NodeId,
    k: K,
    v: V,
    lid: NodeId,
    p: int,
)
    requires
        wf_node(ns0, n, h, lo, hi, after),
        rank_in(k.rank(), lo, hi),
        lid == crate::range_queries::descend_leaf(ns0, n, h, k),
        ns0.leaves.contains_key(lid),
        0 <= p < ns0.leaves[lid].keys.len(),
        ns0.leaves[lid].keys[p] == k,
    ensures
        insert_done(ns0, with_value(ns0, lid, p, v), n, h, lo, hi, after, k, v,
            InsertResult::Updated(Some(ns0.leaves[lid].values[p]))),
    decreases h,
{
    let ns1 = with_value(ns0, lid, p, v);
    lemma_wf_basic(ns0, n, h, lo, hi, after);
    match n {
        NodeRef::Leaf(id, _) => {
            let lv = ns0.leaves[id];
            let c0 = content(ns0, n, h);
            lemma_zip(lv.keys, lv.values);
            lemma_zip_update(lv.keys, lv.values, p, v);
            assert(is_lower_index(entry_keys(c0), k, p)) by {
                assert forall|j: int| 0 <= j < p implies #[trigger] entry_keys(c0)[j].rank() < k.rank() by {
                    assert(lv.keys[j].rank() < lv.keys[p].rank());
                }
                assert forall|j: int| p <= j < c0.len() implies k.rank() <= #[trigger] entry_keys(c0)[j].rank() by {
                    if j > p {
                        assert(lv.keys[p].rank() < lv.keys[j].rank());
                    }
                }
            }
            lemma_choose_lower_index(c0, k, p);
            assert(c0[p] == (k, lv.values[p]));
            assert(content(ns1, n, h) == zip_entries(lv.keys, lv.values.update(p, v)));
            assert(forall|x: NodeRef<K, V>| #[trigger] in_tree(ns0, n, 0, x) == (x == n));
            assert(forall|x: NodeRef<K, V>| #[trigger] in_tree(ns1, n, 0, x) == (x == n));
            assert forall|x: NodeRef<K, V>| ns0.has(x) && !in_tree(ns0, n, h, x) implies #[trigger] ns0.same_node(ns1, x) by {
                if x is Leaf {
                    assert(x.spec_id() != id);
                }
            }
        },
        NodeRef::Branch(id, _) => {
            let b = ns0.branches[id];
            let ch = (h - 1) as nat;
            let i = child_pos(b.keys, k);
            lemma_locate(ns0, n, h, lo, hi, after, k);
            lemma_wf_branch_unfold(ns0, n, h, lo, hi, after);
            assert(wf_node(ns0, b.children[i], ch, child_lo(b.keys, i, lo), child_hi(b.keys, i, hi),
                child_after(ns0, b.children, i, ch, after)));
            lemma_value_set(ns0, b.children[i], ch, child_lo(b.keys, i, lo), child_hi(b.keys, i, hi),
                child_after(ns0, b.children, i, ch, after), k, v, lid, p);
            lemma_insert_branch_updated(ns0, ns1, n, h, lo, hi, after, k, v, Some(ns0.leaves[lid].values[p]));
        },
    }
}

} // verus!
