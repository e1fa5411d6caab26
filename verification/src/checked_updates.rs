//! Updates that check the tree before and after they change it, and a batch
//! of insertions that is taken back as a whole when a check fails.
use crate::error::{BPlusTreeError, ModifyResult};
use crate::sorted::{insert_entry, lemma_insert_entry_sorted, remove_entry};
use crate::tree::BPlusTreeMap;
use crate::types::TreeKey;
use vstd::prelude::*;

verus! {

/// The map after inserting the first `j` pairs of `items`, in order.
pub open spec fn apply_inserts<K, V>(m: Map<K, V>, items: Seq<(K, V)>, j: int) -> Map<K, V>
    decreases j,
{
    if j <= 0 {
        m
    } else {
        apply_inserts(m, items, j - 1).insert(items[j - 1].0, items[j - 1].1)
    }
}

impl<K: TreeKey, V> BPlusTreeMap<K, V> {
    /// The tree passes the detailed check: the structure checks hold and
    /// the arenas hold exactly the nodes in the tree.
    pub open spec fn passes_checks(&self) -> bool {
        self.check_invariants_spec() && self.arenas_match_tree()
    }

    /// A well-formed, half-full tree whose arenas hold exactly its nodes
    /// passes the detailed check. Every tree made by `new`, `empty` or
    /// `clear` is such a tree, and insertions, removals and value updates
    /// keep it one.
    pub proof fn lemma_sound_passes_checks(&self)
        requires
            self.wf(),
            self.half_full(),
            self.arenas_match_tree(),
        ensures
            self.passes_checks(),
    {
        crate::occupancy::lemma_tree_checks(*self);
    }

    /// Run the detailed check on a well-formed tree.
    fn detailed_check(&self) -> (r: Result<(), String>)
        requires
            self.wf(),
            self.entries().len() <= usize::MAX,
        ensures
            r is Ok <==> self.passes_checks(),
    {
        proof {
            self.lemma_node_counts();
        }
        self.check_invariants_detailed()
    }

    /// Insert after checking the tree, and check it again afterwards; a
    /// failed check is reported as a data integrity error.
    pub fn try_insert(&mut self, key: K, value: V) -> (r: ModifyResult<Option<V>>)
        requires
            old(self).wf(),
            old(self).has_room(),
            old(self).entries().len() < usize::MAX,
        ensures
            final(self).wf(),
            final(self).capacity == old(self).capacity,
            final(self).entries().len() <= old(self).entries().len() + 1,
            final(self).leaf_arena.slot_count() <= old(self).leaf_arena.slot_count() + 1,
            final(self).branch_arena.slot_count() <= old(self).branch_arena.slot_count() + old(self).height@ + 1,
            final(self).height@ <= old(self).height@ + 1,
            old(self).half_full() ==> final(self).half_full(),
            !old(self).passes_checks() ==> r is Err && r->Err_0 is DataIntegrityError && *final(self) == *old(self),
            old(self).passes_checks() && old(self).half_full() ==> r is Ok && final(self).passes_checks(),
            old(self).passes_checks() ==> {
                &&& final(self)@ == old(self)@.insert(key, value)
                &&& (r is Ok <==> final(self).passes_checks())
                &&& r is Ok ==> r->Ok_0 == (if old(self)@.contains_key(key) {
                    Some(old(self)@[key])
                } else {
                    None
                })
                &&& r is Err ==> r->Err_0 is DataIntegrityError
            },
    {
        if let Err(e) = self.detailed_check() {
            return Err(BPlusTreeError::DataIntegrityError(e));
        }
        proof {
            self.lemma_entries_sorted();
            lemma_insert_entry_sorted(self.entries(), key, value);
        }
        let old_value = self.insert(key, value);
        if let Err(e) = self.detailed_check() {
            return Err(BPlusTreeError::DataIntegrityError(e));
        }
        Ok(old_value)
    }

    /// Remove after checking the tree, and check it again afterwards; an
    /// absent key is reported as not found.
    pub fn try_remove(&mut self, key: &K) -> (r: ModifyResult<V>)
        requires
            old(self).wf(),
            old(self).entries().len() <= usize::MAX,
        ensures
            final(self).wf(),
            final(self).capacity == old(self).capacity,
            old(self).half_full() ==> final(self).half_full(),
            !old(self).passes_checks() ==> r is Err && r->Err_0 is DataIntegrityError && *final(self) == *old(self),
            old(self).passes_checks() && old(self).half_full() && old(self)@.contains_key(*key) ==> r is Ok
                && final(self).passes_checks(),
            old(self).passes_checks() ==> {
                &&& final(self)@ == old(self)@.remove(*key)
                &&& !old(self)@.contains_key(*key) ==> r == Err::<V, BPlusTreeError>(BPlusTreeError::KeyNotFound)
                &&& old(self)@.contains_key(*key) ==> {
                    &&& (r is Ok <==> final(self).passes_checks())
                    &&& r is Ok ==> r->Ok_0 == old(self)@[*key]
                    &&& r is Err ==> r->Err_0 is DataIntegrityError
                }
            },
    {
        if let Err(e) = self.detailed_check() {
            return Err(BPlusTreeError::DataIntegrityError(e));
        }
        proof {
            self.lemma_entries_sorted();
            crate::sorted::lemma_map_remove_entry(self.entries(), *key);
            lemma_remove_entry_len(self.entries(), *key);
        }
        let value = match self.remove(key) {
            Some(value) => value,
            None => {
                return Err(BPlusTreeError::KeyNotFound);
            },
        };
        if let Err(e) = self.detailed_check() {
            return Err(BPlusTreeError::DataIntegrityError(e));
        }
        Ok(value)
    }
}

/// Taking back the last of the first `j + 1` insertions: restoring the
/// value it replaced, or removing its key when it replaced none, gives the
/// map after the first `j`.
proof fn lemma_undo_insert<K, V>(m: Map<K, V>, items: Seq<(K, V)>, j: int)
    requires
        0 <= j < items.len(),
    ensures
        ({
            let prev = apply_inserts(m, items, j);
            let next = apply_inserts(m, items, j + 1);
            let k = items[j].0;
            &&& next == prev.insert(k, items[j].1)
            &&& prev.contains_key(k) ==> next.insert(k, prev[k]) == prev
            &&& !prev.contains_key(k) ==> next.remove(k) == prev
        }),
{
    let prev = apply_inserts(m, items, j);
    let next = apply_inserts(m, items, j + 1);
    let k = items[j].0;
    if prev.contains_key(k) {
        assert(next.insert(k, prev[k]) =~= prev);
    } else {
        assert(next.remove(k) =~= prev);
    }
}

impl<K: TreeKey, V> BPlusTreeMap<K, V> {
    /// Take back the first `results.len()` insertions of `items`, last
    /// first: a replaced value is put back, a new key is removed.
    fn undo_inserts(&mut self, inserted_keys: &Vec<K>, results: &mut Vec<Option<V>>, Ghost(m0): Ghost<Map<K, V>>, Ghost(items): Ghost<Seq<(K, V)>>)
        requires
            old(self).wf(),
            old(results)@.len() == inserted_keys@.len(),
            inserted_keys@.len() <= items.len(),
            old(self)@ == apply_inserts(m0, items, inserted_keys@.len() as int),
            forall|t: int| 0 <= t < inserted_keys@.len() ==> #[trigger] inserted_keys@[t] == items[t].0,
            forall|t: int| 0 <= t < old(results)@.len() ==> #[trigger] old(results)@[t] == (if apply_inserts(m0, items, t).contains_key(items[t].0) {
                Some(apply_inserts(m0, items, t)[items[t].0])
            } else {
                None
            }),
        ensures
            final(self).wf(),
            final(self).capacity == old(self).capacity,
            final(self)@ == m0,
            old(self).half_full() ==> final(self).half_full(),
            old(self).arenas_match_tree() ==> final(self).arenas_match_tree(),
    {
        let mut j = inserted_keys.len();
        while j > 0
            invariant
                self.wf(),
                self.capacity == old(self).capacity,
                old(self).half_full() ==> self.half_full(),
                old(self).arenas_match_tree() ==> self.arenas_match_tree(),
                j <= inserted_keys@.len() <= items.len(),
                results@.len() == j,
                self@ == apply_inserts(m0, items, j as int),
                forall|t: int| 0 <= t < inserted_keys@.len() ==> #[trigger] inserted_keys@[t] == items[t].0,
                forall|t: int| 0 <= t < results@.len() ==> #[trigger] results@[t] == (if apply_inserts(m0, items, t).contains_key(items[t].0) {
                    Some(apply_inserts(m0, items, t)[items[t].0])
                } else {
                    None
                }),
            decreases j,
        {
            j -= 1;
            let key = inserted_keys[j];
            proof {
                lemma_undo_insert(m0, items, j as int);
                assert(results@[j as int] == results@.last());
            }
            match results.pop().unwrap() {
                Some(v) => match self.get_mut(&key) {
                    Some(slot) => {
                        *slot = v;
                    },
                    None => {},
                },
                None => {
                    self.remove(&key);
                },
            }
        }
        proof {
            assert(apply_inserts(m0, items, 0) == m0);
        }
    }

    /// Insert the pairs in order, checking the tree before the first and
    /// after each insertion, and collect the values they replaced. When a
    /// check fails, or the arenas have no room for another insertion, the
    /// insertions made are taken back, so that the tree holds what it held
    /// before, and the error is returned. A half-full tree that passes the
    /// checks, with room for all the insertions, takes them all.
    pub fn batch_insert(&mut self, items: Vec<(K, V)>) -> (r: ModifyResult<Vec<Option<V>>>)
        requires
            old(self).wf(),
            old(self).entries().len() + items@.len() < usize::MAX,
        ensures
            final(self).wf(),
            final(self).capacity == old(self).capacity,
            items@.len() == 0 ==> r is Ok && r->Ok_0@.len() == 0 && *final(self) == *old(self),
            items@.len() > 0 && !old(self).passes_checks() ==> r is Err && r->Err_0 is DataIntegrityError
                && *final(self) == *old(self),
            old(self).passes_checks() && old(self).half_full() && old(self).has_room_for(items@.len()) ==> r is Ok,
            old(self).half_full() ==> final(self).half_full(),
            old(self).arenas_match_tree() ==> final(self).arenas_match_tree(),
            r is Ok ==> {
                &&& final(self)@ == apply_inserts(old(self)@, items@, items@.len() as int)
                &&& r->Ok_0@.len() == items@.len()
                &&& forall|i: int| 0 <= i < items@.len() ==> #[trigger] r->Ok_0@[i] == (if apply_inserts(old(self)@, items@, i).contains_key(items@[i].0) {
                    Some(apply_inserts(old(self)@, items@, i)[items@[i].0])
                } else {
                    None
                })
            },
            r is Err ==> final(self)@ == old(self)@ && (r->Err_0 is DataIntegrityError || r->Err_0 is AllocationError),
    {
        let ghost items0 = items@;
        let ghost m0 = self@;
        let ghost e0 = self.entries().len();
        let ghost l0 = self.leaf_arena.slot_count();
        let ghost b0 = self.branch_arena.slot_count();
        let ghost h0 = self.height@;
        let n = items.len();
        if n == 0 {
            return Ok(Vec::new());
        }
        proof {
            assert(self.entries().len() <= usize::MAX);
        }
        if let Err(e) = self.detailed_check() {
            return Err(BPlusTreeError::DataIntegrityError(e));
        }
        let mut rest = items;
        let mut pending: Vec<(K, V)> = Vec::new();
        while rest.len() > 0
            invariant
                rest@.len() + pending@.len() == n,
                n == items0.len(),
                rest@ == items0.subrange(0, rest@.len() as int),
                forall|t: int| 0 <= t < pending@.len() ==> #[trigger] pending@[t] == items0[n - 1 - t],
            decreases rest@.len(),
        {
            let x = rest.pop().unwrap();
            pending.push(x);
            proof {
                assert(rest@ =~= items0.subrange(0, rest@.len() as int));
            }
        }
        let mut results: Vec<Option<V>> = Vec::new();
        let mut inserted_keys: Vec<K> = Vec::new();
        let mut i: usize = 0;
        while i < n
            invariant
                self.wf(),
                self.capacity == old(self).capacity,
                n == items0.len(),
                items0 == items@,
                n > 0,
                old(self).passes_checks(),
                m0 == old(self)@,
                i <= n,
                pending@.len() == n - i,
                forall|t: int| 0 <= t < pending@.len() ==> #[trigger] pending@[t] == items0[n - 1 - t],
                self@ == apply_inserts(m0, items0, i as int),
                results@.len() == i,
                inserted_keys@.len() == i,
                forall|t: int| 0 <= t < i ==> #[trigger] inserted_keys@[t] == items0[t].0,
                forall|t: int| 0 <= t < i ==> #[trigger] results@[t] == (if apply_inserts(m0, items0, t).contains_key(items0[t].0) {
                    Some(apply_inserts(m0, items0, t)[items0[t].0])
                } else {
                    None
                }),
                self.entries().len() <= e0 + i,
                e0 + n < usize::MAX,
                self.passes_checks(),
                old(self).half_full() ==> self.half_full(),
                l0 == old(self).leaf_arena.slot_count(),
                b0 == old(self).branch_arena.slot_count(),
                h0 == old(self).height@,
                self.leaf_arena.slot_count() <= l0 + i,
                self.height@ <= h0 + i,
                self.branch_arena.slot_count() <= b0 + i * (h0 + n),
            decreases n - i,
        {
            let (key, value) = pending.pop().unwrap();
            proof {
                assert((key, value) == items0[i as int]);
            }
            proof {
                assert((i + 1) * (h0 + n) == i * (h0 + n) + (h0 + n)) by (nonlinear_arith);
                assert((i + 1) * (h0 + n) <= n * (h0 + n)) by (nonlinear_arith)
                    requires
                        i + 1 <= n,
                ;
            }
            if !self.has_room_for_insert() {
                self.undo_inserts(&inserted_keys, &mut results, Ghost(m0), Ghost(items0));
                return Err(BPlusTreeError::allocation_error("tree nodes", "the arenas are full"));
            }
            proof {
                self.lemma_entries_sorted();
                lemma_insert_entry_sorted(self.entries(), key, value);
            }
            let old_value = self.insert(key, value);
            results.push(old_value);
            inserted_keys.push(key);
            i += 1;
            proof {
                assert(self.entries().len() <= usize::MAX);
            }
            if let Err(e) = self.detailed_check() {
                self.undo_inserts(&inserted_keys, &mut results, Ghost(m0), Ghost(items0));
                return Err(BPlusTreeError::DataIntegrityError(e));
            }
        }
        Ok(results)
    }
}

/// Removing an entry never lengthens the entries.
proof fn lemma_remove_entry_len<K: TreeKey, V>(s: Seq<(K, V)>, k: K)
    requires
        crate::sorted::entries_sorted(s),
    ensures
        remove_entry(s, k).len() <= s.len(),
{
    crate::sorted::lemma_lower_index_exists(s, k);
    let p = choose|p: int| crate::sorted::is_lower_index(crate::sorted::entry_keys(s), k, p);
    if p < s.len() && s[p].0 == k {
        assert(remove_entry(s, k) == s.remove(p));
    }
}

} // verus!
