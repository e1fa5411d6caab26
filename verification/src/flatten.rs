//! Facts about concatenating a sequence of sequences, used to reason about
//! the contents of a branch as the contents of its children in order.
use crate::sorted::entries_sorted;
use crate::types::TreeKey;
use vstd::prelude::*;

verus! {

/// Flattening a single sequence gives that sequence.
pub proof fn lemma_flatten_one<A>(x: Seq<A>)
    ensures
        seq![x].flatten() == x,
{
    seq![x].lemma_flatten_one_element();
}

/// Flattening splits around any element.
pub proof fn lemma_flatten_split<A>(ss: Seq<Seq<A>>, i: int)
    requires
        0 <= i < ss.len(),
    ensures
        ss.flatten() == ss.subrange(0, i).flatten() + ss[i] + ss.subrange(i + 1, ss.len() as int).flatten(),
{
    let a = ss.subrange(0, i);
    let b = ss.subrange(i + 1, ss.len() as int);
    assert(ss =~= a + (seq![ss[i]] + b));
    vstd::seq_lib::lemma_flatten_concat(a, seq![ss[i]] + b);
    vstd::seq_lib::lemma_flatten_concat(seq![ss[i]], b);
    lemma_flatten_one(ss[i]);
    assert(ss.flatten() =~= a.flatten() + ss[i] + b.flatten());
}

/// Flattening distributes over concatenation.
pub proof fn lemma_flatten_add<A>(x: Seq<Seq<A>>, y: Seq<Seq<A>>)
    ensures
        (x + y).flatten() == x.flatten() + y.flatten(),
{
    vstd::seq_lib::lemma_flatten_concat(x, y);
}

/// Flattening after replacing part `i` by several parts.
pub proof fn lemma_flatten_replace<A>(ss: Seq<Seq<A>>, i: int, mid: Seq<Seq<A>>)
    requires
        0 <= i < ss.len(),
    ensures
        (ss.subrange(0, i) + mid + ss.subrange(i + 1, ss.len() as int)).flatten() == ss.subrange(0, i).flatten()
            + mid.flatten() + ss.subrange(i + 1, ss.len() as int).flatten(),
        ss.update(i, mid.flatten()) == ss.subrange(0, i) + seq![mid.flatten()] + ss.subrange(i + 1, ss.len() as int),
{
    let a = ss.subrange(0, i);
    let c = ss.subrange(i + 1, ss.len() as int);
    vstd::seq_lib::lemma_flatten_concat(a + mid, c);
    vstd::seq_lib::lemma_flatten_concat(a, mid);
    assert(ss.update(i, mid.flatten()) =~= a + seq![mid.flatten()] + c);
}

/// Flattening two parts concatenates them.
pub proof fn lemma_flatten_two<A>(x: Seq<A>, y: Seq<A>)
    ensures
        seq![x, y].flatten() == x + y,
        seq![x].flatten() == x,
{
    vstd::seq_lib::lemma_flatten_concat(seq![x], seq![y]);
    lemma_flatten_one(x);
    lemma_flatten_one(y);
    assert(seq![x, y] =~= seq![x] + seq![y]);
}

/// Every element of a flattened sequence comes from one of the parts.
pub proof fn lemma_flatten_contains<A>(ss: Seq<Seq<A>>, x: A)
    ensures
        ss.flatten().contains(x) <==> exists|i: int| 0 <= i < ss.len() && #[trigger] ss[i].contains(x),
    decreases ss.len(),
{
    if ss.len() > 0 {
        lemma_flatten_contains(ss.drop_first(), x);
        let f = ss.flatten();
        assert(f == ss[0] + ss.drop_first().flatten());
        if f.contains(x) {
            let k = choose|k: int| 0 <= k < f.len() && f[k] == x;
            if k < ss[0].len() {
                assert(ss[0][k] == x);
                assert(ss[0].contains(x));
            } else {
                let r = ss.drop_first().flatten();
                assert(r[k - ss[0].len()] == x);
                assert(r.contains(x));
                let i = choose|i: int| 0 <= i < ss.drop_first().len() && #[trigger] ss.drop_first()[i].contains(x);
                assert(ss[i + 1] == ss.drop_first()[i]);
            }
        }
        if exists|i: int| 0 <= i < ss.len() && #[trigger] ss[i].contains(x) {
            let i = choose|i: int| 0 <= i < ss.len() && #[trigger] ss[i].contains(x);
            if i == 0 {
                let k = choose|k: int| 0 <= k < ss[0].len() && ss[0][k] == x;
                assert(f[k] == x);
            } else {
                assert(ss.drop_first()[i - 1] == ss[i]);
                let r = ss.drop_first().flatten();
                assert(r.contains(x));
                let k = choose|k: int| 0 <= k < r.len() && r[k] == x;
                assert(f[k + ss[0].len()] == x);
            }
        }
    }
}

/// All parts sorted and each part's keys below the next parts' keys.
pub open spec fn parts_separated<K: TreeKey, V>(ss: Seq<Seq<(K, V)>>) -> bool {
    forall|i: int, j: int, a: (K, V), b: (K, V)|
        0 <= i < j < ss.len() && #[trigger] ss[i].contains(a) && #[trigger] ss[j].contains(b)
            ==> a.0.rank() < b.0.rank()
}

/// Concatenating sorted, separated parts gives a sorted sequence.
pub proof fn lemma_flatten_sorted<K: TreeKey, V>(ss: Seq<Seq<(K, V)>>)
    requires
        forall|i: int| 0 <= i < ss.len() ==> entries_sorted(#[trigger] ss[i]),
        parts_separated(ss),
    ensures
        entries_sorted(ss.flatten()),
    decreases ss.len(),
{
    if ss.len() > 0 {
        let rest = ss.drop_first();
        assert forall|i: int| 0 <= i < rest.len() implies entries_sorted(#[trigger] rest[i]) by {
            assert(rest[i] == ss[i + 1]);
        }
        assert forall|i: int, j: int, a: (K, V), b: (K, V)|
            0 <= i < j < rest.len() && #[trigger] rest[i].contains(a) && #[trigger] rest[j].contains(
                b,
            ) implies a.0.rank() < b.0.rank() by {
            assert(rest[i] == ss[i + 1]);
            assert(rest[j] == ss[j + 1]);
            assert(ss[i + 1].contains(a));
            assert(ss[j + 1].contains(b));
        }
        lemma_flatten_sorted(rest);
        let x = ss[0];
        let y = rest.flatten();
        assert(ss.flatten() == x + y);
        assert forall|p: int, q: int|
            0 <= p < q < (x + y).len() implies #[trigger] (x + y)[p].0.rank() < #[trigger] (x
            + y)[q].0.rank() by {
            if q < x.len() {
            } else if p >= x.len() {
                assert((x + y)[p] == y[p - x.len()]);
                assert((x + y)[q] == y[q - x.len()]);
            } else {
                let a = x[p];
                let b = y[q - x.len()];
                assert(x.contains(a));
                assert(y.contains(b));
                lemma_flatten_contains(rest, b);
                let j = choose|j: int| 0 <= j < rest.len() && #[trigger] rest[j].contains(b);
                assert(rest[j] == ss[j + 1]);
                assert(ss[0].contains(a));
                assert(ss[j + 1].contains(b));
            }
        }
    }
}

} // verus!
