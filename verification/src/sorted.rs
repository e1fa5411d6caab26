//! Sorted key sequences: the predicates the nodes keep and the binary search
//! that every lookup uses.
use crate::types::{KeyOrder, TreeKey};
use vstd::prelude::*;

verus! {

/// Keys in strictly increasing order.
pub open spec fn keys_sorted<K: TreeKey>(s: Seq<K>) -> bool {
    forall|i: int, j: int| 0 <= i < j < s.len() ==> #[trigger] s[i].rank() < #[trigger] s[j].rank()
}

/// Position at which `k` sits or would be inserted: every earlier key is
/// smaller and every later key is larger or equal.
pub open spec fn is_lower_index<K: TreeKey>(s: Seq<K>, k: K, p: int) -> bool {
    &&& 0 <= p <= s.len()
    &&& forall|j: int| 0 <= j < p ==> #[trigger] s[j].rank() < k.rank()
    &&& forall|j: int| p <= j < s.len() ==> k.rank() <= #[trigger] s[j].rank()
}

/// Pairs of keys and values, in key order.
pub open spec fn zip_entries<K, V>(keys: Seq<K>, values: Seq<V>) -> Seq<(K, V)> {
    Seq::new(keys.len(), |i: int| (keys[i], values[i]))
}

/// The keys of a sequence of entries.
pub open spec fn entry_keys<K, V>(s: Seq<(K, V)>) -> Seq<K> {
    Seq::new(s.len(), |i: int| s[i].0)
}

/// Entries in strictly increasing key order.
pub open spec fn entries_sorted<K: TreeKey, V>(s: Seq<(K, V)>) -> bool {
    forall|i: int, j: int|
        0 <= i < j < s.len() ==> #[trigger] s[i].0.rank() < #[trigger] s[j].0.rank()
}

/// Whether some entry has key `k`.
pub open spec fn has_key<K, V>(s: Seq<(K, V)>, k: K) -> bool {
    exists|i: int| 0 <= i < s.len() && #[trigger] s[i].0 == k
}

/// The entries with `k` mapped to `v`: the entry with that key replaced, or
/// a new entry at its place in key order.
pub open spec fn insert_entry<K: TreeKey, V>(s: Seq<(K, V)>, k: K, v: V) -> Seq<(K, V)> {
    let p = choose|p: int| is_lower_index(entry_keys(s), k, p);
    if p < s.len() && s[p].0 == k {
        s.update(p, (k, v))
    } else {
        s.insert(p, (k, v))
    }
}

/// The entries without the one for key `k`, if any.
pub open spec fn remove_entry<K: TreeKey, V>(s: Seq<(K, V)>, k: K) -> Seq<(K, V)> {
    let p = choose|p: int| is_lower_index(entry_keys(s), k, p);
    if p < s.len() && s[p].0 == k {
        s.remove(p)
    } else {
        s
    }
}

/// An entry for `k` means the key is present.
pub proof fn lemma_contains_has_key<K, V>(s: Seq<(K, V)>, k: K, v: V)
    requires
        s.contains((k, v)),
    ensures
        has_key(s, k),
{
    let i = choose|i: int| 0 <= i < s.len() && s[i] == (k, v);
    assert(s[i].0 == k);
}

/// Basic facts of zipped keys and values.
pub proof fn lemma_zip<K: TreeKey, V>(keys: Seq<K>, values: Seq<V>)
    requires
        keys.len() == values.len(),
    ensures
        zip_entries(keys, values).len() == keys.len(),
        entry_keys(zip_entries(keys, values)) == keys,
        entries_sorted(zip_entries(keys, values)) == keys_sorted(keys),
        forall|i: int| 0 <= i < keys.len() ==> #[trigger] zip_entries(keys, values)[i] == (keys[i], values[i]),
{
    let z = zip_entries(keys, values);
    assert(entry_keys(z) =~= keys);
    if entries_sorted(z) {
        assert forall|i: int, j: int| 0 <= i < j < keys.len() implies #[trigger] keys[i].rank() < #[trigger] keys[j].rank() by {
            assert(z[i].0.rank() < z[j].0.rank());
        }
    }
    if keys_sorted(keys) {
        assert forall|i: int, j: int| 0 <= i < j < z.len() implies #[trigger] z[i].0.rank() < #[trigger] z[j].0.rank() by {
            assert(keys[i].rank() < keys[j].rank());
        }
    }
}

/// Zipping distributes over concatenation.
pub proof fn lemma_zip_add<K, V>(k1: Seq<K>, v1: Seq<V>, k2: Seq<K>, v2: Seq<V>)
    requires
        k1.len() == v1.len(),
        k2.len() == v2.len(),
    ensures
        zip_entries(k1 + k2, v1 + v2) == zip_entries(k1, v1) + zip_entries(k2, v2),
{
    assert(zip_entries(k1 + k2, v1 + v2) =~= zip_entries(k1, v1) + zip_entries(k2, v2));
}

/// Zipping commutes with inserting at a position.
pub proof fn lemma_zip_insert<K, V>(keys: Seq<K>, values: Seq<V>, p: int, k: K, v: V)
    requires
        keys.len() == values.len(),
        0 <= p <= keys.len(),
    ensures
        zip_entries(keys.insert(p, k), values.insert(p, v)) == zip_entries(keys, values).insert(p, (k, v)),
{
    assert(zip_entries(keys.insert(p, k), values.insert(p, v)) =~= zip_entries(keys, values).insert(p, (k, v)));
}

/// Zipping commutes with updating a value.
pub proof fn lemma_zip_update<K, V>(keys: Seq<K>, values: Seq<V>, p: int, v: V)
    requires
        keys.len() == values.len(),
        0 <= p < keys.len(),
    ensures
        zip_entries(keys, values.update(p, v)) == zip_entries(keys, values).update(p, (keys[p], v)),
{
    assert(zip_entries(keys, values.update(p, v)) =~= zip_entries(keys, values).update(p, (keys[p], v)));
}

/// The map that a sequence of entries describes.
pub open spec fn entries_map<K, V>(s: Seq<(K, V)>) -> Map<K, V> {
    Map::new(
        |k: K| has_key(s, k),
        |k: K| s[choose|i: int| 0 <= i < s.len() && s[i].0 == k].1,
    )
}

/// In a sorted sequence, the lower index of a key is unique.
pub proof fn lemma_lower_index_unique<K: TreeKey>(s: Seq<K>, k: K, p: int, q: int)
    requires
        is_lower_index(s, k, p),
        is_lower_index(s, k, q),
    ensures
        p == q,
{
    if p < q {
        assert(s[p].rank() < k.rank());
    } else if q < p {
        assert(s[q].rank() < k.rank());
    }
}

/// The position found by a search is the one that `insert_entry` and
/// `remove_entry` choose.
pub proof fn lemma_choose_lower_index<K: TreeKey, V>(s: Seq<(K, V)>, k: K, p: int)
    requires
        is_lower_index(entry_keys(s), k, p),
    ensures
        (choose|q: int| is_lower_index(entry_keys(s), k, q)) == p,
{
    let q = choose|q: int| is_lower_index(entry_keys(s), k, q);
    lemma_lower_index_unique(entry_keys(s), k, p, q);
}

/// Index of the child that covers `k` among separators `s`: the separators
/// before it are at most `k`, the ones from it on are above `k`.
pub open spec fn is_child_pos<K: TreeKey>(s: Seq<K>, k: K, p: int) -> bool {
    &&& 0 <= p <= s.len()
    &&& forall|j: int| 0 <= j < p ==> #[trigger] s[j].rank() <= k.rank()
    &&& forall|j: int| p <= j < s.len() ==> k.rank() < #[trigger] s[j].rank()
}

/// The child index that covers `k`.
pub open spec fn child_pos<K: TreeKey>(s: Seq<K>, k: K) -> int {
    choose|p: int| is_child_pos(s, k, p)
}

/// The child index is unique and is the one `child_pos` names.
pub proof fn lemma_child_pos<K: TreeKey>(s: Seq<K>, k: K, p: int)
    requires
        is_child_pos(s, k, p),
    ensures
        child_pos(s, k) == p,
{
    let q = child_pos(s, k);
    assert(is_child_pos(s, k, q));
    if q < p {
        assert(s[q].rank() <= k.rank());
    } else if p < q {
        assert(s[p].rank() <= k.rank());
    }
}

/// A key whose insertion point holds a larger key is absent.
pub proof fn lemma_absent<K: TreeKey>(s: Seq<K>, k: K, p: int)
    requires
        keys_sorted(s),
        is_lower_index(s, k, p),
        p < s.len() ==> k.rank() < s[p].rank(),
    ensures
        !s.contains(k),
        forall|i: int| 0 <= i < s.len() ==> s[i] != k,
{
    assert forall|i: int| 0 <= i < s.len() implies s[i] != k by {
        if i > p {
            assert(s[p].rank() < s[i].rank());
        }
    }
}

/// Every key has a child index among sorted separators.
pub proof fn lemma_child_pos_exists<K: TreeKey>(s: Seq<K>, k: K)
    requires
        keys_sorted(s),
    ensures
        is_child_pos(s, k, child_pos(s, k)),
    decreases s.len(),
{
    if s.len() == 0 {
        assert(is_child_pos(s, k, 0));
    } else {
        lemma_child_pos_exists(s.drop_last(), k);
        let p = child_pos(s.drop_last(), k);
        if s.last().rank() <= k.rank() {
            assert forall|j: int| 0 <= j < s.len() implies #[trigger] s[j].rank() <= k.rank() by {
                if j < s.len() - 1 {
                    assert(s[j].rank() < s.last().rank());
                }
            }
            assert(is_child_pos(s, k, s.len() as int));
        } else {
            let d = s.drop_last();
            assert forall|j: int| 0 <= j < p implies #[trigger] s[j].rank() <= k.rank() by {
                assert(s[j] == d[j]);
            }
            assert forall|j: int| p <= j < s.len() implies k.rank() < #[trigger] s[j].rank() by {
                if j < s.len() - 1 {
                    assert(s[j] == d[j]);
                }
            }
            assert(is_child_pos(s, k, p));
        }
    }
}

/// Every key has a lower index in sorted entries.
pub proof fn lemma_lower_index_exists<K: TreeKey, V>(s: Seq<(K, V)>, k: K)
    requires
        entries_sorted(s),
    ensures
        exists|p: int| is_lower_index(entry_keys(s), k, p),
    decreases s.len(),
{
    let ks = entry_keys(s);
    if s.len() == 0 {
        assert(is_lower_index(ks, k, 0));
    } else {
        lemma_lower_index_exists(s.drop_last(), k);
        let p = choose|p: int| is_lower_index(entry_keys(s.drop_last()), k, p);
        assert(entry_keys(s.drop_last()) =~= ks.drop_last());
        if s.last().0.rank() < k.rank() {
            assert forall|j: int| 0 <= j < s.len() implies #[trigger] ks[j].rank() < k.rank() by {
                if j < s.len() - 1 {
                    assert(s[j].0.rank() < s.last().0.rank());
                }
            }
            assert(is_lower_index(ks, k, s.len() as int));
        } else {
            let d = ks.drop_last();
            assert forall|j: int| 0 <= j < p implies #[trigger] ks[j].rank() < k.rank() by {
                assert(ks[j] == d[j]);
            }
            assert forall|j: int| p <= j < ks.len() implies k.rank() <= #[trigger] ks[j].rank() by {
                if j < ks.len() - 1 {
                    assert(ks[j] == d[j]);
                }
            }
            assert(is_lower_index(ks, k, p));
        }
    }
}

/// All keys of the entries are below `r`.
pub open spec fn all_below<K: TreeKey, V>(s: Seq<(K, V)>, r: int) -> bool {
    forall|i: int| 0 <= i < s.len() ==> #[trigger] s[i].0.rank() < r
}

/// All keys of the entries are above `r`.
pub open spec fn all_above<K: TreeKey, V>(s: Seq<(K, V)>, r: int) -> bool {
    forall|i: int| 0 <= i < s.len() ==> r < #[trigger] s[i].0.rank()
}

/// Inserting into the middle part of entries that lie below and above the
/// key touches only that part.
pub proof fn lemma_insert_entry_middle<K: TreeKey, V>(a: Seq<(K, V)>, x: Seq<(K, V)>, c: Seq<(K, V)>, k: K, v: V)
    requires
        all_below(a, k.rank()),
        all_above(c, k.rank()),
        entries_sorted(x),
    ensures
        insert_entry(a + x + c, k, v) == a + insert_entry(x, k, v) + c,
{
    lemma_lower_index_exists(x, k);
    let p = choose|p: int| is_lower_index(entry_keys(x), k, p);
    let s = a + x + c;
    let q = a.len() + p;
    assert(is_lower_index(entry_keys(s), k, q)) by {
        let ks = entry_keys(s);
        assert forall|j: int| 0 <= j < q implies #[trigger] ks[j].rank() < k.rank() by {
            if j < a.len() {
                assert(s[j] == a[j]);
            } else {
                assert(s[j] == x[j - a.len()]);
                assert(entry_keys(x)[j - a.len()].rank() < k.rank());
            }
        }
        assert forall|j: int| q <= j < s.len() implies k.rank() <= #[trigger] ks[j].rank() by {
            if j < a.len() + x.len() {
                assert(s[j] == x[j - a.len()]);
                assert(k.rank() <= entry_keys(x)[j - a.len()].rank());
            } else {
                assert(s[j] == c[j - a.len() - x.len()]);
            }
        }
    }
    lemma_choose_lower_index(s, k, q);
    lemma_choose_lower_index(x, k, p);
    if p < x.len() && x[p].0 == k {
        assert(s[q] == x[p]);
        assert(s.update(q, (k, v)) =~= a + x.update(p, (k, v)) + c);
    } else {
        if q < s.len() {
            if p < x.len() {
                assert(s[q] == x[p]);
            } else {
                assert(s[q] == c[0]);
                assert(k.rank() < c[0].0.rank());
            }
        }
        assert(s.insert(q, (k, v)) =~= a + x.insert(p, (k, v)) + c);
    }
}

/// Removing from the middle part of entries that lie below and above the
/// key touches only that part.
pub proof fn lemma_remove_entry_middle<K: TreeKey, V>(a: Seq<(K, V)>, x: Seq<(K, V)>, c: Seq<(K, V)>, k: K)
    requires
        all_below(a, k.rank()),
        all_above(c, k.rank()),
        entries_sorted(x),
    ensures
        remove_entry(a + x + c, k) == a + remove_entry(x, k) + c,
{
    lemma_lower_index_exists(x, k);
    let p = choose|p: int| is_lower_index(entry_keys(x), k, p);
    let s = a + x + c;
    let q = a.len() + p;
    assert(is_lower_index(entry_keys(s), k, q)) by {
        let ks = entry_keys(s);
        assert forall|j: int| 0 <= j < q implies #[trigger] ks[j].rank() < k.rank() by {
            if j < a.len() {
                assert(s[j] == a[j]);
            } else {
                assert(s[j] == x[j - a.len()]);
                assert(entry_keys(x)[j - a.len()].rank() < k.rank());
            }
        }
        assert forall|j: int| q <= j < s.len() implies k.rank() <= #[trigger] ks[j].rank() by {
            if j < a.len() + x.len() {
                assert(s[j] == x[j - a.len()]);
                assert(k.rank() <= entry_keys(x)[j - a.len()].rank());
            } else {
                assert(s[j] == c[j - a.len() - x.len()]);
            }
        }
    }
    lemma_choose_lower_index(s, k, q);
    lemma_choose_lower_index(x, k, p);
    if p < x.len() && x[p].0 == k {
        assert(s[q] == x[p]);
        assert(s.remove(q) =~= a + x.remove(p) + c);
    } else {
        if q < s.len() {
            if p < x.len() {
                assert(s[q] == x[p]);
            } else {
                assert(s[q] == c[0]);
                assert(k.rank() < c[0].0.rank());
            }
        }
    }
}

/// Inserting into sorted entries keeps them sorted.
pub proof fn lemma_insert_entry_sorted<K: TreeKey, V>(s: Seq<(K, V)>, k: K, v: V)
    requires
        entries_sorted(s),
    ensures
        entries_sorted(insert_entry(s, k, v)),
        has_key(s, k) ==> insert_entry(s, k, v).len() == s.len(),
        !has_key(s, k) ==> insert_entry(s, k, v).len() == s.len() + 1,
{
    lemma_lower_index_exists(s, k);
    let p = choose|p: int| is_lower_index(entry_keys(s), k, p);
    lemma_choose_lower_index(s, k, p);
    let t = insert_entry(s, k, v);
    if p < s.len() && s[p].0 == k {
        assert forall|i: int, j: int| 0 <= i < j < t.len() implies #[trigger] t[i].0.rank() < #[trigger] t[j].0.rank() by {
            if i == p {
                assert(s[p].0.rank() < s[j].0.rank());
            } else if j == p {
                assert(s[i].0.rank() < s[p].0.rank());
            }
        }
    } else {
        assert(!has_key(s, k)) by {
            if has_key(s, k) {
                let m = choose|m: int| 0 <= m < s.len() && #[trigger] s[m].0 == k;
                if m < p {
                    assert(entry_keys(s)[m].rank() < k.rank());
                } else if m > p {
                    assert(s[p].0.rank() < s[m].0.rank());
                    assert(k.rank() <= entry_keys(s)[p].rank());
                }
            }
        }
        assert forall|i: int, j: int| 0 <= i < j < t.len() implies #[trigger] t[i].0.rank() < #[trigger] t[j].0.rank() by {
            if i == p {
                assert(k.rank() <= entry_keys(s)[j - 1].rank());
                assert(s[j - 1].0 != k);
                if s[j - 1].0.rank() == k.rank() {
                    K::lemma_rank_injective(s[j - 1].0, k);
                }
            } else if j == p {
                assert(entry_keys(s)[i].rank() < k.rank());
            } else if i < p && j > p {
                assert(s[i].0.rank() < s[j - 1].0.rank());
            } else if i > p {
                assert(s[i - 1].0.rank() < s[j - 1].0.rank());
            }
        }
    }
    if has_key(s, k) {
        if !(p < s.len() && s[p].0 == k) {
            let m = choose|m: int| 0 <= m < s.len() && #[trigger] s[m].0 == k;
            if m < p {
                assert(entry_keys(s)[m].rank() < k.rank());
            } else if m > p {
                assert(s[p].0.rank() < s[m].0.rank());
                assert(k.rank() <= entry_keys(s)[p].rank());
            }
        }
    }
}

/// Binary search by rank: `Ok(i)` when `keys[i]` is `key`, else `Err(i)` with
/// `i` the insertion point.
pub fn search_keys<K: TreeKey>(keys: &Vec<K>, key: &K) -> (r: Result<usize, usize>)
    requires
        keys_sorted(keys@),
    ensures
        match r {
            Ok(i) => i < keys@.len() && keys@[i as int] == *key && is_lower_index(keys@, *key, i as int),
            Err(i) => is_lower_index(keys@, *key, i as int) && (i < keys@.len() ==> key.rank()
                < keys@[i as int].rank()) && !keys@.contains(*key),
        },
{
    let mut lo: usize = 0;
    let mut hi: usize = keys.len();
    while lo < hi
        invariant
            keys_sorted(keys@),
            0 <= lo <= hi <= keys@.len(),
            forall|j: int| 0 <= j < lo ==> #[trigger] keys@[j].rank() < key.rank(),
            forall|j: int| hi <= j < keys@.len() ==> key.rank() < #[trigger] keys@[j].rank(),
        decreases hi - lo,
    {
        let mid = lo + (hi - lo) / 2;
        match keys[mid].compare_key(key) {
            KeyOrder::Less => {
                proof {
                    assert forall|j: int| 0 <= j < mid + 1 implies #[trigger] keys@[j].rank()
                        < key.rank() by {
                        if j < mid {
                            assert(keys@[j].rank() < keys@[mid as int].rank());
                        }
                    }
                }
                lo = mid + 1;
            },
            KeyOrder::Equal => {
                proof {
                    K::lemma_rank_injective(keys@[mid as int], *key);
                    assert forall|j: int| 0 <= j < mid implies #[trigger] keys@[j].rank()
                        < key.rank() by {
                        assert(keys@[j].rank() < keys@[mid as int].rank());
                    }
                    assert forall|j: int| mid <= j < keys@.len() implies key.rank()
                        <= #[trigger] keys@[j].rank() by {
                        if j > mid {
                            assert(keys@[mid as int].rank() < keys@[j].rank());
                        }
                    }
                }
                return Ok(mid);
            },
            KeyOrder::Greater => {
                proof {
                    assert forall|j: int| mid <= j < keys@.len() implies key.rank()
                        < #[trigger] keys@[j].rank() by {
                        if j > mid {
                            assert(keys@[mid as int].rank() < keys@[j].rank());
                        }
                    }
                }
                hi = mid;
            },
        }
    }
    proof {
        lemma_absent(keys@, *key, lo as int);
    }
    Err(lo)
}

/// Index of the child that covers `key`: one past the matching separator,
/// else the insertion point.
pub fn child_index_for<K: TreeKey>(keys: &Vec<K>, key: &K) -> (r: usize)
    requires
        keys_sorted(keys@),
    ensures
        is_child_pos(keys@, *key, r as int),
        r == child_pos(keys@, *key),
{
    let n = keys.len();
    match search_keys(keys, key) {
        Ok(index) => {
            proof {
                assert forall|j: int| index + 1 <= j < keys@.len() implies key.rank()
                    < #[trigger] keys@[j].rank() by {
                    assert(keys@[index as int].rank() < keys@[j].rank());
                }
            }
            proof {
                lemma_child_pos(keys@, *key, index + 1);
            }
            index + 1
        },
        Err(index) => {
            proof {
                lemma_child_pos(keys@, *key, index as int);
            }
            index
        },
    }
}

/// In sorted entries, the entry for a key is the one the map gives.
pub proof fn lemma_map_get<K: TreeKey, V>(c: Seq<(K, V)>, k: K, v: V)
    requires
        entries_sorted(c),
        c.contains((k, v)),
    ensures
        entries_map(c).contains_key(k),
        entries_map(c)[k] == v,
{
    let i = choose|i: int| 0 <= i < c.len() && c[i] == (k, v);
    assert(c[i].0 == k);
    let j = choose|j: int| 0 <= j < c.len() && c[j].0 == k;
    if i < j {
        assert(c[i].0.rank() < c[j].0.rank());
    } else if j < i {
        assert(c[j].0.rank() < c[i].0.rank());
    }
}

/// The map of sorted entries after inserting is the map with the key set.
pub proof fn lemma_map_insert_entry<K: TreeKey, V>(c: Seq<(K, V)>, k: K, v: V)
    requires
        entries_sorted(c),
    ensures
        entries_map(insert_entry(c, k, v)) == entries_map(c).insert(k, v),
{
    lemma_insert_entry_sorted(c, k, v);
    lemma_lower_index_exists(c, k);
    let p = choose|p: int| is_lower_index(entry_keys(c), k, p);
    let t = insert_entry(c, k, v);
    let m = entries_map(c).insert(k, v);
    assert forall|x: K| #[trigger] entries_map(t).contains_key(x) == m.contains_key(x) by {
        if has_key(t, x) {
            let j = choose|j: int| 0 <= j < t.len() && #[trigger] t[j].0 == x;
            if x != k {
                if p < c.len() && c[p].0 == k {
                    assert(t[j] == c[j]);
                } else if j < p {
                    assert(t[j] == c[j]);
                } else {
                    assert(t[j] == c[j - 1]);
                }
            }
        }
        if x == k {
            if p < c.len() && c[p].0 == k {
                assert(t[p].0 == k);
            } else {
                assert(t[p].0 == k);
            }
        } else if has_key(c, x) {
            let j = choose|j: int| 0 <= j < c.len() && #[trigger] c[j].0 == x;
            if p < c.len() && c[p].0 == k {
                assert(t[j] == c[j]);
            } else if j < p {
                assert(t[j] == c[j]);
            } else {
                assert(t[j + 1] == c[j]);
            }
        }
    }
    assert forall|x: K| #[trigger] entries_map(t).contains_key(x) implies entries_map(t)[x] == m[x] by {
        let j = choose|j: int| 0 <= j < t.len() && #[trigger] t[j].0 == x;
        assert(t.contains(t[j]));
        lemma_map_get(t, x, t[j].1);
        if x == k {
            assert(t[p] == (k, v));
            assert(t.contains((k, v)));
            lemma_map_get(t, k, v);
        } else {
            let e = t[j];
            if p < c.len() && c[p].0 == k {
                assert(c[j] == e);
            } else if j < p {
                assert(c[j] == e);
            } else {
                assert(c[j - 1] == e);
            }
            assert(c.contains(e));
            lemma_map_get(c, x, e.1);
        }
    }
    assert(entries_map(t) =~= m);
}

/// The map of sorted entries after removing is the map without the key.
pub proof fn lemma_map_remove_entry<K: TreeKey, V>(c: Seq<(K, V)>, k: K)
    requires
        entries_sorted(c),
    ensures
        entries_map(remove_entry(c, k)) == entries_map(c).remove(k),
        entries_sorted(remove_entry(c, k)),
{
    lemma_lower_index_exists(c, k);
    let p = choose|p: int| is_lower_index(entry_keys(c), k, p);
    let t = remove_entry(c, k);
    let m = entries_map(c).remove(k);
    let found = p < c.len() && c[p].0 == k;
    assert forall|i: int, j: int| 0 <= i < j < t.len() implies #[trigger] t[i].0.rank() < #[trigger] t[j].0.rank() by {
        if found {
            let io = if i < p { i } else { i + 1 };
            let jo = if j < p { j } else { j + 1 };
            assert(t[i] == c[io] && t[j] == c[jo]);
        }
    }
    assert forall|x: K| #[trigger] entries_map(t).contains_key(x) == m.contains_key(x) by {
        if has_key(t, x) {
            let j = choose|j: int| 0 <= j < t.len() && #[trigger] t[j].0 == x;
            if found {
                let jo = if j < p { j } else { j + 1 };
                assert(t[j] == c[jo]);
                if x == k {
                    if jo < p {
                        assert(entry_keys(c)[jo].rank() < k.rank());
                    } else {
                        assert(c[p].0.rank() < c[jo].0.rank());
                    }
                }
            } else {
                if x == k {
                    if j < p {
                        assert(entry_keys(c)[j].rank() < k.rank());
                    } else if j > p {
                        assert(c[p].0.rank() < c[j].0.rank());
                        assert(k.rank() <= entry_keys(c)[p].rank());
                    }
                }
            }
        }
        if x != k && has_key(c, x) {
            let j = choose|j: int| 0 <= j < c.len() && #[trigger] c[j].0 == x;
            if found {
                if j < p {
                    assert(t[j] == c[j]);
                } else {
                    assert(j != p);
                    assert(t[j - 1] == c[j]);
                }
            }
        }
    }
    assert forall|x: K| #[trigger] entries_map(t).contains_key(x) implies entries_map(t)[x] == m[x] by {
        let j = choose|j: int| 0 <= j < t.len() && #[trigger] t[j].0 == x;
        let e = t[j];
        assert(t.contains(e));
        lemma_map_get(t, x, e.1);
        if found {
            let jo = if j < p { j } else { j + 1 };
            assert(c[jo] == e);
        } else {
            assert(c[j] == e);
        }
        assert(c.contains(e));
        lemma_map_get(c, x, e.1);
    }
    assert(entries_map(t) =~= m);
}

} // verus!
