//! A range-query workload over a large tree: many range scans of
//! different sizes over a hundred thousand entries.
use crate::global_capacity_tree::{starts_at, GlobalCapacityBPlusTreeMap, RangeIterator};
use crate::sorted::{entries_map, entries_sorted, has_key};
use crate::types::{below_upper, KeyBound, TreeKey};
use vstd::prelude::*;

verus! {

/// `t` is where the entries from `s` on stop lying below the upper bound.
pub open spec fn stops_at<K: TreeKey, V>(e: Seq<(K, V)>, s: int, end: KeyBound<K>, t: int) -> bool {
    &&& s <= t <= e.len()
    &&& forall|j: int| s <= j < t ==> below_upper(end, #[trigger] e[j].0)
    &&& t < e.len() ==> !below_upper(end, e[t].0)
}

/// Everything the iterator yields, in order: the entries from its position
/// up to where they leave the range.
fn collect_range<'a, K: TreeKey, V>(it: RangeIterator<'a, K, V>) -> (r: Vec<(&'a K, &'a V)>)
    requires
        it.valid(),
        !it.done(),
    ensures
        ({
            let e = it.spec_tree().entries();
            let s = it.pos();
            &&& stops_at(e, s, it.spec_end_bound(), s + r@.len())
            &&& forall|i: int| 0 <= i < r@.len() ==> *(#[trigger] r@[i]).0 == e[s + i].0 && *r@[i].1 == e[s + i].1
        }),
{
    let mut it = it;
    let ghost it0 = it;
    let ghost e = it.spec_tree().entries();
    let ghost s = it.pos();
    let ghost end = it.spec_end_bound();
    let mut out: Vec<(&'a K, &'a V)> = Vec::new();
    proof {
        it.lemma_pos_bounded();
    }
    loop
        invariant_except_break
            !it.done(),
        invariant
            it.valid(),
            it.spec_tree() == it0.spec_tree(),
            it.spec_end_bound() == end,
            e == it.spec_tree().entries(),
            s == it0.pos(),
            !it.done() ==> it.pos() == s + out@.len(),
            s <= s + out@.len() <= e.len(),
            forall|j: int| s <= j < s + out@.len() ==> below_upper(end, #[trigger] e[j].0),
            forall|i: int| 0 <= i < out@.len() ==> *(#[trigger] out@[i]).0 == e[s + i].0 && *out@[i].1 == e[s + i].1,
        ensures
            stops_at(e, s, end, s + out@.len()),
            forall|i: int| 0 <= i < out@.len() ==> *(#[trigger] out@[i]).0 == e[s + i].0 && *out@[i].1 == e[s + i].1,
        decreases e.len() - (s + out@.len()),
    {
        proof {
            it.lemma_pos_bounded();
        }
        match it.next() {
            Some(item) => {
                out.push(item);
                proof {
                    it.lemma_pos_bounded();
                }
            },
            None => {
                break;
            },
        }
    }
    out
}

/// Sorted entries whose keys are exactly `0..n` have key `j` at position
/// `j`.
proof fn lemma_identity_keys(e: Seq<(i32, i32)>, n: int)
    requires
        entries_sorted(e),
        0 <= n <= i32::MAX,
        forall|k: i32| #[trigger] has_key(e, k) <==> 0 <= k < n,
    ensures
        e.len() == n,
        forall|j: int| 0 <= j < e.len() ==> #[trigger] e[j].0 == j,
{
    assert forall|j: int| 0 <= j < e.len() implies 0 <= #[trigger] e[j].0 < n by {
        assert(has_key(e, e[j].0));
    }
    lemma_identity_prefix(e, n, e.len() as int);
    if e.len() > n {
        assert(e[n].0 == n);
    }
    if e.len() < n {
        let k = (n - 1) as i32;
        assert(has_key(e, k));
        let t = choose|t: int| 0 <= t < e.len() && #[trigger] e[t].0 == k;
        assert(e[t].0 == t);
    }
}

/// The first `m` positions of sorted entries with keys exactly `0..n` hold
/// keys `0..m`.
proof fn lemma_identity_prefix(e: Seq<(i32, i32)>, n: int, m: int)
    requires
        entries_sorted(e),
        0 <= m <= e.len(),
        forall|k: i32| #[trigger] has_key(e, k) <==> 0 <= k < n,
        forall|j: int| 0 <= j < e.len() ==> 0 <= #[trigger] e[j].0 < n,
    ensures
        forall|j: int| 0 <= j < m ==> #[trigger] e[j].0 == j,
    decreases m,
{
    if m > 0 {
        let j = m - 1;
        lemma_identity_prefix(e, n, j);
        if j > 0 {
            assert(e[j - 1].0.rank() < e[j].0.rank());
        }
        if e[j].0 > j {
            let k = j as i32;
            assert(has_key(e, k));
            let t = choose|t: int| 0 <= t < e.len() && #[trigger] e[t].0 == k;
            if t > j {
                assert(e[j].0.rank() < e[t].0.rank());
            }
        }
    }
}

/// Insert the keys `0..100_000` with ten times their value into a tree of
/// capacity 16, then run a thousand rounds of range scans of several sizes
/// over it; the scan of `45_000..55_000` yields ten thousand entries.
pub fn perf_range_test() {
    let mut tree = GlobalCapacityBPlusTreeMap::<i32, i32>::new(16).unwrap();
    proof {
        assert(tree@ =~= Map::new(|k: i32| 0 <= k < 0, |k: i32| (k * 10) as i32));
    }
    let mut i: i32 = 0;
    while i < 100_000
        invariant
            tree.wf(),
            0 <= i <= 100_000,
            tree@ == Map::new(|k: i32| 0 <= k < i, |k: i32| (k * 10) as i32),
        decreases 100_000 - i,
    {
        if !tree.has_room_for_insert() {
            return;
        }
        let _ = tree.insert(i, i * 10);
        proof {
            assert(tree@ =~= Map::new(|k: i32| 0 <= k < i + 1, |k: i32| (k * 10) as i32));
        }
        i += 1;
    }
    let ghost e = tree.entries();
    proof {
        tree.lemma_entries_sorted();
        assert forall|k: i32| #[trigger] has_key(e, k) <==> 0 <= k < 100_000 by {
            assert(tree@.contains_key(k) == has_key(e, k));
        }
        lemma_identity_keys(e, 100_000);
    }
    let mut round: usize = 0;
    while round < 1000
        invariant
            tree.wf(),
            e == tree.entries(),
            e.len() == 100_000,
            forall|j: int| 0 <= j < e.len() ==> #[trigger] e[j].0 == j,
        decreases 1000 - round,
    {
        let _iter = tree.range(KeyBound::Included(45_000), KeyBound::Excluded(55_000));
        let it = tree.range(KeyBound::Included(45_000), KeyBound::Excluded(55_000));
        let ghost s = it.pos();
        let items = collect_range(it);
        proof {
            if s < 45_000 {
                assert(e[s].0 == s);
            } else if s > 45_000 {
                assert(e[45_000].0 == 45_000);
            }
            let t = s + items@.len();
            if t < 55_000 {
                assert(e[t].0 == t);
            } else if t > 55_000 {
                assert(e[55_000].0 == 55_000);
            }
        }
        assert(items.len() == 10_000);
        let _small = collect_range(tree.range(KeyBound::Included(49_990), KeyBound::Excluded(50_010)));
        let _medium = collect_range(tree.range(KeyBound::Included(48_000), KeyBound::Excluded(52_000)));
        let _large = collect_range(tree.range(KeyBound::Included(20_000), KeyBound::Excluded(80_000)));
        round += 1;
    }
}

} // verus!
