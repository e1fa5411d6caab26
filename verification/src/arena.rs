//! A general arena: slots that each hold an item or nothing, with a stack
//! of freed ids that allocation reuses first.
use crate::error::{concat_str, decimal, decimal_string};
use crate::types::{NodeId, NULL_NODE};
use vstd::prelude::*;

verus! {

/// Arena of items addressed by `NodeId`.
#[derive(Debug)]
pub struct Arena<T> {
    storage: Vec<Option<T>>,
    free_ids: Vec<NodeId>,
}

/// Number of occupied slots.
pub open spec fn count_some<T>(s: Seq<Option<T>>) -> nat
    decreases s.len(),
{
    if s.len() == 0 {
        0
    } else {
        count_some(s.drop_last()) + if s.last() is Some {
            1nat
        } else {
            0nat
        }
    }
}

/// The ids below `k` of the slots that hold an item form a finite set with
/// as many members as those slots.
proof fn lemma_count_some_ids<T>(s: Seq<Option<T>>, k: int)
    requires
        0 <= k <= s.len(),
        s.len() <= NULL_NODE,
    ensures
        Set::new(|id: NodeId| (id as int) < k && s[id as int] is Some).finite(),
        Set::new(|id: NodeId| (id as int) < k && s[id as int] is Some).len() == count_some(s.subrange(0, k)),
    decreases k,
{
    let d = Set::new(|id: NodeId| (id as int) < k && s[id as int] is Some);
    if k == 0 {
        assert(d =~= Set::empty());
    } else {
        lemma_count_some_ids(s, k - 1);
        let d0 = Set::new(|id: NodeId| (id as int) < k - 1 && s[id as int] is Some);
        let x = (k - 1) as NodeId;
        assert(s.subrange(0, k).drop_last() =~= s.subrange(0, k - 1));
        if s[k - 1] is Some {
            assert(d =~= d0.insert(x));
        } else {
            assert(d =~= d0);
        }
    }
}

/// The items of the occupied slots, in slot order.
pub open spec fn some_values<T>(s: Seq<Option<T>>) -> Seq<T>
    decreases s.len(),
{
    if s.len() == 0 {
        Seq::empty()
    } else if s.last() is Some {
        some_values(s.drop_last()).push(s.last().unwrap())
    } else {
        some_values(s.drop_last())
    }
}

/// Distinct ids below `n` are at most `n` many.
pub(crate) proof fn lemma_distinct_below(x: Seq<NodeId>, n: nat)
    requires
        x.no_duplicates(),
        forall|i: int| 0 <= i < x.len() ==> (#[trigger] x[i] as int) < n,
    ensures
        x.len() <= n,
    decreases n,
{
    if n == 0 {
        if x.len() > 0 {
            assert((x[0] as int) < 0);
        }
    } else {
        let top = (n - 1) as int;
        if exists|i: int| 0 <= i < x.len() && x[i] as int == top {
            let i = choose|i: int| 0 <= i < x.len() && x[i] as int == top;
            let y = x.remove(i);
            assert forall|j: int| 0 <= j < y.len() implies (#[trigger] y[j] as int) < (n - 1) as nat by {
                if j < i {
                    assert(y[j] == x[j]);
                    assert(x[j] != x[i]);
                } else {
                    assert(y[j] == x[j + 1]);
                    assert(x[j + 1] != x[i]);
                }
            }
            assert(y.no_duplicates()) by {
                assert forall|a: int, b: int| 0 <= a < y.len() && 0 <= b < y.len() && a != b implies y[a] != y[b] by {
                    let a1 = if a < i { a } else { a + 1 };
                    let b1 = if b < i { b } else { b + 1 };
                    assert(y[a] == x[a1]);
                    assert(y[b] == x[b1]);
                }
            }
            lemma_distinct_below(y, (n - 1) as nat);
        } else {
            assert forall|j: int| 0 <= j < x.len() implies (#[trigger] x[j] as int) < (n - 1) as nat by {
                assert(x[j] as int != top);
            }
            lemma_distinct_below(x, (n - 1) as nat);
        }
    }
}

/// The ids of `s` below `n`, in order.
pub open spec fn ids_below(s: Seq<NodeId>, n: int) -> Seq<NodeId>
    decreases s.len(),
{
    if s.len() == 0 {
        s
    } else {
        let rest = ids_below(s.drop_last(), n);
        if (s.last() as int) < n {
            rest.push(s.last())
        } else {
            rest
        }
    }
}

/// The ids kept are those of `s` below `n`, each once if `s` has it once.
proof fn lemma_ids_below(s: Seq<NodeId>, n: int)
    ensures
        forall|x: NodeId| #[trigger] ids_below(s, n).contains(x) <==> s.contains(x) && (x as int) < n,
        s.no_duplicates() ==> ids_below(s, n).no_duplicates(),
    decreases s.len(),
{
    if s.len() > 0 {
        let d = s.drop_last();
        lemma_ids_below(d, n);
        let r = ids_below(d, n);
        assert forall|x: NodeId| #[trigger] ids_below(s, n).contains(x) <==> s.contains(x) && (x as int) < n by {
            if s.contains(x) {
                let i = choose|i: int| 0 <= i < s.len() && s[i] == x;
                if i < s.len() - 1 {
                    assert(d[i] == x);
                    assert(d.contains(x));
                }
            }
            if d.contains(x) {
                let i = choose|i: int| 0 <= i < d.len() && d[i] == x;
                assert(s[i] == x);
            }
            if (s.last() as int) < n {
                assert(ids_below(s, n) == r.push(s.last()));
                if r.push(s.last()).contains(x) {
                    let i = choose|i: int| 0 <= i < r.len() + 1 && r.push(s.last())[i] == x;
                    if i < r.len() {
                        assert(r[i] == x);
                    }
                }
                if r.contains(x) {
                    let i = choose|i: int| 0 <= i < r.len() && r[i] == x;
                    assert(r.push(s.last())[i] == x);
                }
                assert(r.push(s.last())[r.len() as int] == s.last());
            }
        }
        if s.no_duplicates() {
            assert(d.no_duplicates()) by {
                assert forall|a: int, b: int| 0 <= a < d.len() && 0 <= b < d.len() && a != b implies d[a] != d[b] by {
                    assert(d[a] == s[a]);
                    assert(d[b] == s[b]);
                }
            }
            if (s.last() as int) < n {
                let t = r.push(s.last());
                assert(!d.contains(s.last())) by {
                    if d.contains(s.last()) {
                        let i = choose|i: int| 0 <= i < d.len() && d[i] == s.last();
                        assert(s[i] == s[s.len() - 1]);
                    }
                }
                assert(!r.contains(s.last()));
                assert forall|a: int, b: int| 0 <= a < t.len() && 0 <= b < t.len() && a != b implies t[a] != t[b] by {
                    if a < r.len() && b < r.len() {
                        assert(t[a] == r[a]);
                        assert(t[b] == r[b]);
                    } else if a < r.len() {
                        assert(t[a] == r[a]);
                        assert(r.contains(r[a]));
                    } else {
                        assert(t[b] == r[b]);
                        assert(r.contains(r[b]));
                    }
                }
            }
        }
    }
}

impl<T> View for Arena<T> {
    type V = Map<NodeId, T>;

    /// The items by id.
    closed spec fn view(&self) -> Map<NodeId, T> {
        Map::new(
            |id: NodeId| (id as int) < self.storage@.len() && self.storage@[id as int] is Some,
            |id: NodeId| self.storage@[id as int].unwrap(),
        )
    }
}

impl<T> Arena<T> {
    /// Number of slots, occupied or free.
    pub closed spec fn slot_count(&self) -> nat {
        self.storage@.len()
    }

    /// The stack of freed ids; the last one is reused first.
    pub closed spec fn free_ids(&self) -> Seq<NodeId> {
        self.free_ids@
    }

    /// Whether slot `i` holds an item.
    pub closed spec fn occupied_slot(&self, i: int) -> bool {
        self.storage@[i] is Some
    }

    /// The items, in id order.
    pub closed spec fn items_in_order(&self) -> Seq<T> {
        some_values(self.storage@)
    }

    /// Slot ids fit `NodeId`, and every freed id names a distinct empty slot.
    pub closed spec fn wf(&self) -> bool {
        &&& self.storage@.len() <= NULL_NODE
        &&& forall|i: int|
            #![trigger self.free_ids@[i]]
            0 <= i < self.free_ids@.len() ==> (self.free_ids@[i] as int) < self.storage@.len()
                && self.storage@[self.free_ids@[i] as int] is None
        &&& self.free_ids@.no_duplicates()
    }

    /// Freed ids name empty slots and are at most as many as the slots.
    pub proof fn lemma_free_ids(&self)
        requires
            self.wf(),
        ensures
            forall|i: int|
                #![trigger self.free_ids()[i]]
                0 <= i < self.free_ids().len() ==> (self.free_ids()[i] as int) < self.slot_count()
                    && !self@.contains_key(self.free_ids()[i]),
            self.free_ids().len() <= self.slot_count(),
    {
        lemma_distinct_below(self.free_ids@, self.storage@.len());
    }

    /// An empty arena.
    pub fn new() -> (r: Self)
        ensures
            r.wf(),
            r@ == Map::<NodeId, T>::empty(),
            r.slot_count() == 0,
            r.free_ids() == Seq::<NodeId>::empty(),
    {
        let r = Self { storage: Vec::new(), free_ids: Vec::new() };
        assert(r@ =~= Map::<NodeId, T>::empty());
        r
    }

    /// An empty arena with room reserved for `capacity` slots.
    pub fn with_capacity(capacity: usize) -> (r: Self)
        ensures
            r.wf(),
            r@ == Map::<NodeId, T>::empty(),
            r.slot_count() == 0,
            r.free_ids() == Seq::<NodeId>::empty(),
    {
        let r = Self { storage: Vec::with_capacity(capacity), free_ids: Vec::new() };
        assert(r@ =~= Map::<NodeId, T>::empty());
        r
    }

    /// The id the next allocation takes: the last freed id, else a new
    /// slot at the end.
    fn next_id(&mut self) -> (id: NodeId)
        requires
            old(self).wf(),
            old(self).free_ids@.len() > 0 || old(self).storage@.len() < NULL_NODE,
        ensures
            final(self).storage == old(self).storage,
            old(self).free_ids@.len() > 0 ==> id == old(self).free_ids@.last() && final(self).free_ids@
                == old(self).free_ids@.drop_last(),
            old(self).free_ids@.len() == 0 ==> id as int == old(self).storage@.len() && final(self).free_ids
                == old(self).free_ids,
    {
        if self.free_ids.len() > 0 {
            self.free_ids.pop().unwrap()
        } else {
            self.storage.len() as NodeId
        }
    }

    /// Store `item` under a fresh id: the last freed id if there is one,
    /// else a new slot at the end.
    pub fn allocate(&mut self, item: T) -> (id: NodeId)
        requires
            old(self).wf(),
            old(self).free_ids().len() > 0 || old(self).slot_count() < NULL_NODE,
        ensures
            final(self).wf(),
            !old(self)@.contains_key(id),
            id != NULL_NODE,
            final(self)@ == old(self)@.insert(id, item),
            old(self).free_ids().len() > 0 ==> id == old(self).free_ids().last() && final(self).free_ids()
                == old(self).free_ids().drop_last() && final(self).slot_count() == old(self).slot_count(),
            old(self).free_ids().len() == 0 ==> id as int == old(self).slot_count() && final(self).free_ids()
                == old(self).free_ids() && final(self).slot_count() == old(self).slot_count() + 1,
    {
        proof {
            if self.free_ids@.len() > 0 {
                assert(self.free_ids@[self.free_ids@.len() - 1] == self.free_ids@.last());
            }
        }
        let ghost old_self = *self;
        let id = self.next_id();
        let id_usize = id as usize;
        if id_usize >= self.storage.len() {
            self.storage.push(None);
        }
        self.storage.set(id_usize, Some(item));
        proof {
            let f = self.free_ids@;
            assert forall|i: int|
                #![trigger f[i]]
                0 <= i < f.len() implies (f[i] as int) < self.storage@.len() && self.storage@[f[i] as int] is None by {
                assert(f[i] == old_self.free_ids@[i]);
                if old_self.free_ids@.len() > 0 {
                    assert(old_self.free_ids@[i] != old_self.free_ids@[old_self.free_ids@.len() - 1]);
                }
            }
            assert(f.no_duplicates()) by {
                assert forall|a: int, b: int| 0 <= a < f.len() && 0 <= b < f.len() && a != b implies f[a] != f[b] by {
                    assert(f[a] == old_self.free_ids@[a]);
                    assert(f[b] == old_self.free_ids@[b]);
                }
            }
            assert(self@ =~= old_self@.insert(id, item));
        }
        id
    }

    /// Take the item out of slot `id` and free the slot; `None` if the slot
    /// holds nothing.
    pub fn deallocate(&mut self, id: NodeId) -> (r: Option<T>)
        requires
            old(self).wf(),
        ensures
            final(self).wf(),
            final(self).slot_count() == old(self).slot_count(),
            old(self)@.contains_key(id) ==> r == Some(old(self)@[id]) && final(self)@ == old(self)@.remove(id)
                && final(self).free_ids() == old(self).free_ids().push(id),
            !old(self)@.contains_key(id) ==> r is None && final(self)@ == old(self)@ && final(self).free_ids()
                == old(self).free_ids(),
    {
        if id == NULL_NODE {
            return None;
        }
        let id_usize = id as usize;
        if id_usize >= self.storage.len() {
            return None;
        }
        let ghost old_self = *self;
        let mut taken: Option<T> = None;
        self.storage.set_and_swap(id_usize, &mut taken);
        match taken {
            Some(item) => {
                self.free_ids.push(id);
                proof {
                    let f = self.free_ids@;
                    assert forall|i: int|
                        #![trigger f[i]]
                        0 <= i < f.len() implies (f[i] as int) < self.storage@.len() && self.storage@[f[i] as int] is None by {
                        if i < f.len() - 1 {
                            assert(f[i] == old_self.free_ids@[i]);
                        }
                    }
                    assert(f.no_duplicates()) by {
                        assert forall|a: int, b: int| 0 <= a < f.len() && 0 <= b < f.len() && a != b implies f[a] != f[b] by {
                            if a < f.len() - 1 && b < f.len() - 1 {
                                assert(f[a] == old_self.free_ids@[a]);
                                assert(f[b] == old_self.free_ids@[b]);
                            } else if a < f.len() - 1 {
                                assert(f[a] == old_self.free_ids@[a]);
                            } else {
                                assert(f[b] == old_self.free_ids@[b]);
                            }
                        }
                    }
                    assert(self@ =~= old_self@.remove(id));
                }
                Some(item)
            },
            None => {
                proof {
                    assert(self.storage@ =~= old_self.storage@);
                }
                None
            },
        }
    }

    /// The item in slot `id`, if any.
    pub fn get(&self, id: NodeId) -> (r: Option<&T>)
        requires
            self.wf(),
        ensures
            r == (if self@.contains_key(id) {
                Some(&self@[id])
            } else {
                None
            }),
    {
        if id == NULL_NODE {
            return None;
        }
        let id_usize = id as usize;
        if id_usize < self.storage.len() {
            match &self.storage[id_usize] {
                Some(item) => Some(item),
                None => None,
            }
        } else {
            None
        }
    }

    /// The item in slot `id`, for changing, if any.
    pub fn get_mut(&mut self, id: NodeId) -> (r: Option<&mut T>)
        requires
            old(self).wf(),
        ensures
            final(self).wf(),
            final(self).slot_count() == old(self).slot_count(),
            final(self).free_ids() == old(self).free_ids(),
            old(self)@.contains_key(id) ==> r is Some && *r.unwrap() == old(self)@[id] && final(self)@ == old(
                self,
            )@.insert(id, *final(r.unwrap())),
            !old(self)@.contains_key(id) ==> r is None && final(self)@ == old(self)@,
    {
        if id == NULL_NODE {
            return None;
        }
        let id_usize = id as usize;
        if id_usize < self.storage.len() {
            let slot = &mut self.storage[id_usize];
            match slot {
                Some(item) => Some(item),
                None => None,
            }
        } else {
            None
        }
    }

    /// Whether slot `id` holds an item.
    pub fn contains(&self, id: NodeId) -> (r: bool)
        requires
            self.wf(),
        ensures
            r == self@.contains_key(id),
    {
        if id == NULL_NODE {
            return false;
        }
        let id_usize = id as usize;
        if id_usize < self.storage.len() {
            self.storage[id_usize].is_some()
        } else {
            false
        }
    }

    /// Number of freed ids waiting for reuse.
    pub fn free_count(&self) -> (r: usize)
        ensures
            r == self.free_ids().len(),
    {
        self.free_ids.len()
    }

    /// Number of slots holding an item.
    pub fn allocated_count(&self) -> (r: usize)
        requires
            self.wf(),
        ensures
            r == self@.dom().len(),
    {
        let mut count: usize = 0;
        let mut i: usize = 0;
        while i < self.storage.len()
            invariant
                i <= self.storage@.len(),
                count == count_some(self.storage@.subrange(0, i as int)),
                count <= i,
            decreases self.storage@.len() - i,
        {
            proof {
                assert(self.storage@.subrange(0, i + 1).drop_last() =~= self.storage@.subrange(0, i as int));
            }
            if self.storage[i].is_some() {
                count = count + 1;
            }
            i = i + 1;
        }
        proof {
            assert(self.storage@.subrange(0, i as int) =~= self.storage@);
            lemma_count_some_ids(self.storage@, self.storage@.len() as int);
            assert(self@.dom() =~= Set::new(|id: NodeId| (id as int) < self.storage@.len() && self.storage@[id as int] is Some));
        }
        count
    }

    /// Number of slots, occupied or free.
    pub fn total_capacity(&self) -> (r: usize)
        ensures
            r == self.slot_count(),
    {
        self.storage.len()
    }

    /// Whether no slot holds an item.
    pub fn is_empty(&self) -> (r: bool)
        requires
            self.wf(),
        ensures
            r == (self@.dom().len() == 0),
    {
        self.allocated_count() == 0
    }

    /// Freed ids plus the new slots still addressable, counting at most a
    /// thousand new ones.
    pub fn available_capacity(&self) -> (r: usize)
        requires
            self.wf(),
        ensures
            r == self.free_ids().len() + if usize::MAX - self.slot_count() < 1000 {
                usize::MAX - self.slot_count()
            } else {
                1000
            },
    {
        proof {
            self.lemma_free_ids();
        }
        let room = usize::MAX - self.total_capacity();
        let extra = if room < 1000 {
            room
        } else {
            1000
        };
        self.free_count() + extra
    }

    /// Drop the empty slots after the last occupied one, and the freed ids
    /// that named them.
    pub fn compact(&mut self)
        requires
            old(self).wf(),
        ensures
            final(self).wf(),
            final(self)@ == old(self)@,
            final(self).slot_count() <= old(self).slot_count(),
            forall|id: NodeId| #[trigger] final(self)@.contains_key(id) ==> (id as int) < final(self).slot_count(),
            final(self).slot_count() == 0 || old(self).occupied_slot(final(self).slot_count() - 1),
            forall|i: int|
                final(self).slot_count() <= i < old(self).slot_count() ==> !#[trigger] old(self).occupied_slot(i),
            final(self).free_ids() == ids_below(old(self).free_ids(), final(self).slot_count() as int),
    {
        let ghost old_self = *self;
        let mut last_allocated: usize = 0;
        let mut i: usize = self.storage.len();
        while i > 0
            invariant_except_break
                last_allocated == 0,
            invariant
                i <= self.storage@.len(),
                *self == old_self,
                forall|j: int| i <= j < self.storage@.len() ==> #[trigger] self.storage@[j] is None,
            ensures
                *self == old_self,
                last_allocated <= self.storage@.len(),
                last_allocated > 0 ==> self.storage@[last_allocated - 1] is Some,
                forall|j: int| last_allocated <= j < self.storage@.len() ==> #[trigger] self.storage@[j] is None,
            decreases i,
        {
            if self.storage[i - 1].is_some() {
                last_allocated = i;
                break;
            }
            i = i - 1;
        }
        let ghost l = last_allocated as int;
        self.storage.truncate(last_allocated);
        let mut kept: Vec<NodeId> = Vec::new();
        let mut k: usize = 0;
        while k < self.free_ids.len()
            invariant
                self.free_ids == old_self.free_ids,
                l == last_allocated as int,
                k <= self.free_ids@.len(),
                kept@ == ids_below(self.free_ids@.subrange(0, k as int), l),
            decreases self.free_ids@.len() - k,
        {
            let id = self.free_ids[k];
            proof {
                let s = self.free_ids@.subrange(0, k + 1);
                assert(s.drop_last() =~= self.free_ids@.subrange(0, k as int));
                assert(s.last() == id);
            }
            let ghost before = kept@;
            if (id as usize) < last_allocated {
                kept.push(id);
            }
            proof {
                let s = self.free_ids@.subrange(0, k + 1);
                assert(s.drop_last() =~= self.free_ids@.subrange(0, k as int));
                assert(s.last() == id);
                assert(ids_below(s, l) == if (s.last() as int) < l {
                    ids_below(s.drop_last(), l).push(s.last())
                } else {
                    ids_below(s.drop_last(), l)
                });
                assert(kept@ == ids_below(s, l));
            }
            k = k + 1;
        }
        proof {
            assert(self.free_ids@.subrange(0, k as int) =~= self.free_ids@);
        }
        self.free_ids = kept;
        proof {
            let f = self.free_ids@;
            lemma_ids_below(old_self.free_ids@, l);
            assert forall|j: int|
                #![trigger f[j]]
                0 <= j < f.len() implies (f[j] as int) < self.storage@.len() && self.storage@[f[j] as int] is None by {
                assert(f.contains(f[j]));
                let m = choose|m: int| 0 <= m < old_self.free_ids@.len() && old_self.free_ids@[m] == f[j];
                assert(old_self.storage@[old_self.free_ids@[m] as int] is None);
            }
            assert(self@ =~= old_self@);
        }
    }

    /// Remove every item and every freed id.
    pub fn clear(&mut self)
        ensures
            final(self).wf(),
            final(self)@ == Map::<NodeId, T>::empty(),
            final(self).slot_count() == 0,
            final(self).free_ids() == Seq::<NodeId>::empty(),
    {
        self.storage.clear();
        self.free_ids.clear();
        assert(self@ =~= Map::<NodeId, T>::empty());
    }

    /// Compact the arena and release the memory it no longer needs.
    pub fn shrink_to_fit(&mut self)
        requires
            old(self).wf(),
        ensures
            final(self).wf(),
            final(self)@ == old(self)@,
            final(self).slot_count() <= old(self).slot_count(),
            final(self).slot_count() == 0 || old(self).occupied_slot(final(self).slot_count() - 1),
            forall|i: int|
                final(self).slot_count() <= i < old(self).slot_count() ==> !#[trigger] old(self).occupied_slot(i),
            final(self).free_ids() == ids_below(old(self).free_ids(), final(self).slot_count() as int),
    {
        self.compact();
        vec_shrink_to_fit(&mut self.storage);
        vec_shrink_to_fit(&mut self.free_ids);
    }

    /// The occupied slots with their ids, in id order.
    pub fn iter(&self) -> (r: Vec<(NodeId, &T)>)
        requires
            self.wf(),
        ensures
            forall|j: int| 0 <= j < r@.len() ==> self@.contains_key(#[trigger] r@[j].0) && *r@[j].1 == self@[r@[j].0],
            forall|id: NodeId| #[trigger] self@.contains_key(id) ==> exists|j: int| 0 <= j < r@.len() && r@[j].0 == id,
            forall|a: int, b: int| 0 <= a < b < r@.len() ==> #[trigger] r@[a].0 < #[trigger] r@[b].0,
    {
        let mut out: Vec<(NodeId, &T)> = Vec::new();
        let mut i: usize = 0;
        while i < self.storage.len()
            invariant
                i <= self.storage@.len(),
                self.storage@.len() <= NULL_NODE,
                forall|j: int| 0 <= j < out@.len() ==> self@.contains_key(#[trigger] out@[j].0) && *out@[j].1 == self@[out@[j].0]
                    && (out@[j].0 as int) < i,
                forall|id: NodeId| #[trigger] self@.contains_key(id) && (id as int) < i ==> exists|j: int| 0 <= j < out@.len() && out@[j].0 == id,
                forall|a: int, b: int| 0 <= a < b < out@.len() ==> #[trigger] out@[a].0 < #[trigger] out@[b].0,
            decreases self.storage@.len() - i,
        {
            match &self.storage[i] {
                Some(item) => {
                    let id = i as NodeId;
                    proof {
                        assert(id as int == i as int);
                        assert(self@.contains_key(id));
                    }
                    let ghost before = out@;
                    out.push((id, item));
                    proof {
                        assert forall|x: NodeId| #[trigger] self@.contains_key(x) && (x as int) < i + 1 implies exists|j: int| 0 <= j < out@.len() && out@[j].0 == x by {
                            if x as int == i as int {
                                assert(out@[out@.len() - 1].0 == x);
                            } else {
                                let j = choose|j: int| 0 <= j < before.len() && before[j].0 == x;
                                assert(out@[j] == before[j]);
                            }
                        }
                    }
                },
                None => {},
            }
            i = i + 1;
        }
        out
    }

    /// The items, in id order.
    pub fn values(&self) -> (r: Vec<&T>)
        ensures
            r@.len() == self.items_in_order().len(),
            forall|j: int| 0 <= j < r@.len() ==> *#[trigger] r@[j] == self.items_in_order()[j],
    {
        let mut out: Vec<&T> = Vec::new();
        let mut i: usize = 0;
        while i < self.storage.len()
            invariant
                i <= self.storage@.len(),
                out@.len() == some_values(self.storage@.subrange(0, i as int)).len(),
                forall|j: int| 0 <= j < out@.len() ==> *#[trigger] out@[j] == some_values(self.storage@.subrange(0, i as int))[j],
            decreases self.storage@.len() - i,
        {
            proof {
                assert(self.storage@.subrange(0, i + 1).drop_last() =~= self.storage@.subrange(0, i as int));
            }
            match &self.storage[i] {
                Some(item) => {
                    out.push(item);
                },
                None => {},
            }
            i = i + 1;
        }
        proof {
            assert(self.storage@.subrange(0, i as int) =~= self.storage@);
        }
        out
    }

    /// Check that every freed id names an empty slot within the arena and
    /// that no id is freed twice.
    pub fn validate(&self) -> (r: Result<(), String>)
        ensures
            r is Ok <==> ({
                &&& forall|i: int|
                    0 <= i < self.free_ids().len() ==> (#[trigger] self.free_ids()[i] as int) < self.slot_count()
                        && !self.occupied_slot(self.free_ids()[i] as int)
                &&& self.free_ids().no_duplicates()
            }),
    {
        let mut i: usize = 0;
        while i < self.free_ids.len()
            invariant
                i <= self.free_ids@.len(),
                forall|j: int|
                    0 <= j < i ==> (#[trigger] self.free_ids@[j] as int) < self.storage@.len()
                        && self.storage@[self.free_ids@[j] as int] is None,
            decreases self.free_ids@.len() - i,
        {
            let free_id = self.free_ids[i];
            let id_usize = free_id as usize;
            if id_usize >= self.storage.len() {
                let n = decimal_string(id_usize);
                let a = concat_str("Free ID ", n.as_str());
                return Err(concat_str(a.as_str(), " is out of bounds"));
            }
            if self.storage[id_usize].is_some() {
                let n = decimal_string(id_usize);
                let a = concat_str("Free ID ", n.as_str());
                return Err(concat_str(a.as_str(), " points to allocated item"));
            }
            i = i + 1;
        }
        let mut a: usize = 0;
        while a < self.free_ids.len()
            invariant
                a <= self.free_ids@.len(),
                forall|x: int, y: int| 0 <= x < a && 0 <= y < self.free_ids@.len() && x != y ==> #[trigger] self.free_ids@[x]
                    != #[trigger] self.free_ids@[y],
            decreases self.free_ids@.len() - a,
        {
            let mut b: usize = 0;
            while b < self.free_ids.len()
                invariant
                    a < self.free_ids@.len(),
                    b <= self.free_ids@.len(),
                    forall|x: int, y: int| 0 <= x < a && 0 <= y < self.free_ids@.len() && x != y ==> #[trigger] self.free_ids@[x]
                        != #[trigger] self.free_ids@[y],
                    forall|y: int| 0 <= y < b && y != a ==> self.free_ids@[a as int] != #[trigger] self.free_ids@[y],
                decreases self.free_ids@.len() - b,
            {
                if b != a && self.free_ids[a] == self.free_ids[b] {
                    let n = decimal_string(self.free_ids[a] as usize);
                    return Err(concat_str("Duplicate free ID: ", n.as_str()));
                }
                b = b + 1;
            }
            a = a + 1;
        }
        Ok(())
    }
}

/// Release unused capacity of a vector with `Vec::shrink_to_fit`; the
/// elements stay as they are.
#[verifier::external_body]
pub(crate) fn vec_shrink_to_fit<A>(v: &mut Vec<A>)
    ensures
        final(v)@ == old(v)@,
{
    v.shrink_to_fit();
}

impl<T> Default for Arena<T> {
    fn default() -> (r: Self)
        ensures
            r.wf(),
            r@ == Map::<NodeId, T>::empty(),
    {
        Self::new()
    }
}

} // verus!
