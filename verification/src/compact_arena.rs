//! Arena that stores items directly in a `Vec<T>`, with a separate mask of
//! allocated slots and a stack of free slots for reuse.
use crate::types::{NodeId, NULL_NODE};
use vstd::prelude::*;

verus! {

/// Number of `true` entries in a mask.
pub open spec fn count_true(s: Seq<bool>) -> nat
    decreases s.len(),
{
    if s.len() == 0 {
        0
    } else {
        count_true(s.drop_last()) + if s.last() {
            1nat
        } else {
            0nat
        }
    }
}

/// Updating one entry of a mask changes its count by at most one.
pub proof fn lemma_count_true_update(s: Seq<bool>, i: int, b: bool)
    requires
        0 <= i < s.len(),
    ensures
        count_true(s.update(i, b)) == count_true(s) - (if s[i] {
            1int
        } else {
            0int
        }) + (if b {
            1int
        } else {
            0int
        }),
    decreases s.len(),
{
    if i == s.len() - 1 {
        assert(s.update(i, b).drop_last() =~= s.drop_last());
    } else {
        lemma_count_true_update(s.drop_last(), i, b);
        assert(s.update(i, b).drop_last() =~= s.drop_last().update(i, b));
    }
}

/// Pushing onto a mask adds one to its count exactly when the new entry is set.
pub proof fn lemma_count_true_push(s: Seq<bool>, b: bool)
    ensures
        count_true(s.push(b)) == count_true(s) + (if b {
            1nat
        } else {
            0nat
        }),
{
    assert(s.push(b).drop_last() =~= s);
}

/// The ids below `n` whose entry in the mask is set.
pub open spec fn set_ids(s: Seq<bool>, n: int) -> Set<NodeId> {
    Set::new(|id: NodeId| (id as int) < n && (id as int) < s.len() && s[id as int])
}

/// The ids set in the first `n` entries of a mask are as many as the
/// mask counts there.
pub proof fn lemma_set_ids_count(s: Seq<bool>, n: int)
    requires
        0 <= n <= s.len(),
        s.len() <= NULL_NODE,
    ensures
        set_ids(s, n).finite(),
        set_ids(s, n).len() == count_true(s.subrange(0, n)),
    decreases n,
{
    if n == 0 {
        assert(set_ids(s, 0) =~= Set::empty());
        assert(s.subrange(0, 0) =~= Seq::<bool>::empty());
    } else {
        lemma_set_ids_count(s, n - 1);
        assert(s.subrange(0, n).drop_last() =~= s.subrange(0, n - 1));
        assert(s.subrange(0, n).last() == s[n - 1]);
        let id = (n - 1) as NodeId;
        assert(id as int == n - 1);
        if s[n - 1] {
            assert(set_ids(s, n) =~= set_ids(s, n - 1).insert(id));
            assert(!set_ids(s, n - 1).contains(id));
        } else {
            assert(set_ids(s, n) =~= set_ids(s, n - 1));
        }
    }
}

/// A mask never counts more entries than it has.
pub proof fn lemma_count_true_le(s: Seq<bool>)
    ensures
        count_true(s) <= s.len(),
    decreases s.len(),
{
    if s.len() > 0 {
        lemma_count_true_le(s.drop_last());
    }
}

/// The count of a prefix of a mask whose entries are all set is its length.
proof fn lemma_count_true_all(s: Seq<bool>, k: int)
    requires
        0 <= k <= s.len(),
        forall|i: int| 0 <= i < s.len() ==> #[trigger] s[i],
    ensures
        count_true(s.subrange(0, k)) == k,
    decreases k,
{
    if k > 0 {
        lemma_count_true_all(s, k - 1);
        assert(s.subrange(0, k).drop_last() =~= s.subrange(0, k - 1));
    }
}

/// Capacity of a vector's allocation.
#[verifier::external_body]
pub(crate) fn vec_capacity<T>(v: &Vec<T>) -> (r: usize)
    ensures
        r >= v@.len(),
{
    v.capacity()
}

/// Compact arena allocator: items are stored directly, with a mask of the
/// allocated slots and a stack of free slot indices.
#[derive(Debug)]
pub struct CompactArena<T> {
    /// Direct storage without an Option wrapper.
    storage: Vec<T>,
    /// Free slot indices for reuse; the last one is reused first.
    free_list: Vec<usize>,
    /// Counter bumped by every allocation.
    generation: u32,
    /// Which slots currently hold an allocated item.
    allocated_mask: Vec<bool>,
}

impl<T> View for CompactArena<T> {
    type V = Map<NodeId, T>;

    /// The allocated items, by id.
    closed spec fn view(&self) -> Map<NodeId, T> {
        Map::new(
            |id: NodeId|
                (id as int) < self.storage@.len() && (id as int) < self.allocated_mask@.len()
                    && self.allocated_mask@[id as int],
            |id: NodeId| self.storage@[id as int],
        )
    }
}

impl<T> CompactArena<T> {
    /// Number of slots, allocated or free.
    pub closed spec fn slot_count(&self) -> nat {
        self.storage@.len()
    }

    /// The stack of free slots; the last entry is reused first.
    pub closed spec fn free_ids(&self) -> Seq<usize> {
        self.free_list@
    }

    /// Internal consistency of the arena.
    pub closed spec fn wf(&self) -> bool {
        &&& self.storage@.len() == self.allocated_mask@.len()
        &&& self.storage@.len() <= NULL_NODE
        &&& forall|i: int|
            #![trigger self.free_list@[i]]
            0 <= i < self.free_list@.len() ==> self.free_list@[i] < self.storage@.len()
                && !self.allocated_mask@[self.free_list@[i] as int]
        &&& self.free_list@.no_duplicates()
        &&& count_true(self.allocated_mask@) + self.free_list@.len() == self.storage@.len()
    }

    /// Every allocated id lies below the slot count, so none is `NULL_NODE`.
    pub proof fn lemma_ids_below_slots(&self, id: NodeId)
        requires
            self.wf(),
            self@.contains_key(id),
        ensures
            (id as int) < self.slot_count(),
            id != NULL_NODE,
    {
    }

    /// A sound arena has no more slots than ids.
    pub proof fn lemma_slots_bounded(&self)
        requires
            self.wf(),
        ensures
            self.slot_count() <= NULL_NODE,
    {
    }

    /// The free slots are never allocated and lie below the slot count.
    pub proof fn lemma_free_ids(&self)
        requires
            self.wf(),
        ensures
            forall|i: int|
                #![trigger self.free_ids()[i]]
                0 <= i < self.free_ids().len() ==> self.free_ids()[i] < self.slot_count()
                    && !self@.contains_key(self.free_ids()[i] as NodeId),
            self.free_ids().len() <= self.slot_count(),
            self.free_ids().no_duplicates(),
    {
        lemma_count_true_le(self.allocated_mask@);
        assert forall|i: int|
            #![trigger self.free_ids()[i]]
            0 <= i < self.free_ids().len() implies self.free_ids()[i] < self.slot_count()
            && !self@.contains_key(self.free_ids()[i] as NodeId) by {
            let f = self.free_list@[i];
            assert(f < self.storage@.len());
            assert((f as NodeId) as int == f as int);
        }
    }

    /// The allocated ids are finitely many, and with the free slots they
    /// make up every slot.
    pub proof fn lemma_live_count(&self)
        requires
            self.wf(),
        ensures
            self@.dom().finite(),
            self@.dom().len() + self.free_ids().len() == self.slot_count(),
    {
        let m = self.allocated_mask@;
        lemma_set_ids_count(m, m.len() as int);
        assert(m.subrange(0, m.len() as int) =~= m);
        assert(self@.dom() =~= set_ids(m, m.len() as int));
    }

    /// Create a new empty compact arena.
    pub fn new() -> (r: Self)
        ensures
            r.wf(),
            r@ == Map::<NodeId, T>::empty(),
            r.slot_count() == 0,
            r.free_ids() == Seq::<usize>::empty(),
    {
        let r = Self {
            storage: Vec::new(),
            free_list: Vec::new(),
            generation: 0,
            allocated_mask: Vec::new(),
        };
        assert(r@ =~= Map::<NodeId, T>::empty());
        r
    }

    /// Create a new compact arena with pre-allocated room for `capacity` items.
    pub fn with_capacity(capacity: usize) -> (r: Self)
        ensures
            r.wf(),
            r@ == Map::<NodeId, T>::empty(),
            r.slot_count() == 0,
            r.free_ids() == Seq::<usize>::empty(),
    {
        let r = Self {
            storage: Vec::with_capacity(capacity),
            free_list: Vec::new(),
            generation: 0,
            allocated_mask: Vec::with_capacity(capacity),
        };
        assert(r@ =~= Map::<NodeId, T>::empty());
        r
    }

    /// Allocate a new item in the arena and return its id: the most recently
    /// freed slot if there is one, else a new slot at the end.
    pub fn allocate(&mut self, item: T) -> (id: NodeId)
        requires
            old(self).wf(),
            old(self).slot_count() < NULL_NODE,
        ensures
            final(self).wf(),
            id != NULL_NODE,
            !old(self)@.contains_key(id),
            final(self)@ == old(self)@.insert(id, item),
            old(self).free_ids().len() > 0 ==> {
                &&& id as int == old(self).free_ids().last() as int
                &&& final(self).free_ids() == old(self).free_ids().drop_last()
                &&& final(self).slot_count() == old(self).slot_count()
            },
            old(self).free_ids().len() == 0 ==> {
                &&& id as int == old(self).slot_count()
                &&& final(self).free_ids() == old(self).free_ids()
                &&& final(self).slot_count() == old(self).slot_count() + 1
            },
    {
        self.generation = self.generation.wrapping_add(1);
        let ghost old_self = *self;
        let index = if let Some(free_index) = self.free_list.pop() {
            proof {
                assert(old_self.free_list@[old_self.free_list@.len() - 1] == free_index);
                lemma_count_true_update(self.allocated_mask@, free_index as int, true);
            }
            self.storage.set(free_index, item);
            self.allocated_mask.set(free_index, true);
            proof {
                assert forall|i: int|
                    #![trigger self.free_list@[i]]
                    0 <= i < self.free_list@.len() implies self.free_list@[i] < self.storage@.len()
                        && !self.allocated_mask@[self.free_list@[i] as int] by {
                    assert(self.free_list@[i] == old_self.free_list@[i]);
                    assert(self.free_list@[i] != free_index);
                }
                assert(self.free_list@.no_duplicates());
            }
            free_index
        } else {
            let index = self.storage.len();
            self.storage.push(item);
            self.allocated_mask.push(true);
            proof {
                lemma_count_true_push(old_self.allocated_mask@, true);
            }
            index
        };
        let id = index as NodeId;
        proof {
            assert(id as int == index as int);
            assert(self@ =~= old_self@.insert(id, item));
        }
        id
    }

    /// Deallocate an item from the arena and return it; the slot is reset to
    /// `T::default()` and pushed on the free stack.
    pub fn deallocate(&mut self, id: NodeId) -> (r: Option<T>)
        where
            T: Default,
        requires
            old(self).wf(),
        ensures
            final(self).wf(),
            final(self).slot_count() == old(self).slot_count(),
            old(self)@.contains_key(id) ==> {
                &&& r == Some(old(self)@[id])
                &&& final(self)@ == old(self)@.remove(id)
                &&& final(self).free_ids() == old(self).free_ids().push(id as usize)
            },
            !old(self)@.contains_key(id) ==> {
                &&& r is None
                &&& final(self)@ == old(self)@
                &&& final(self).free_ids() == old(self).free_ids()
            },
    {
        self.deallocate_with_default(id)
    }

    /// Deallocate without returning the value.
    pub fn deallocate_no_return(&mut self, id: NodeId) -> (r: bool)
        requires
            old(self).wf(),
        ensures
            final(self).wf(),
            final(self).slot_count() == old(self).slot_count(),
            r == old(self)@.contains_key(id),
            r ==> final(self)@ == old(self)@.remove(id) && final(self).free_ids() == old(
                self,
            ).free_ids().push(id as usize),
            !r ==> final(self)@ == old(self)@ && final(self).free_ids() == old(self).free_ids(),
    {
        if id == NULL_NODE {
            return false;
        }
        let index = id as usize;
        if index >= self.allocated_mask.len() || !self.allocated_mask[index] {
            return false;
        }
        let ghost old_self = *self;
        proof {
            lemma_count_true_update(self.allocated_mask@, index as int, false);
        }
        self.allocated_mask.set(index, false);
        self.free_list.push(index);
        proof {
            self.lemma_push_free_keeps_wf(old_self, index);
            assert(self@ =~= old_self@.remove(id));
        }
        true
    }

    proof fn lemma_push_free_keeps_wf(&self, old_self: Self, index: usize)
        requires
            old_self.wf(),
            index < old_self.storage@.len(),
            old_self.allocated_mask@[index as int],
            self.storage@.len() == old_self.storage@.len(),
            self.allocated_mask@ == old_self.allocated_mask@.update(index as int, false),
            self.free_list@ == old_self.free_list@.push(index),
            count_true(self.allocated_mask@) == count_true(old_self.allocated_mask@) - 1,
        ensures
            self.wf(),
    {
        assert forall|i: int|
            #![trigger self.free_list@[i]]
            0 <= i < self.free_list@.len() implies self.free_list@[i] < self.storage@.len()
                && !self.allocated_mask@[self.free_list@[i] as int] by {
            if i < old_self.free_list@.len() {
                assert(self.free_list@[i] == old_self.free_list@[i]);
                assert(old_self.free_list@[i] != index);
            }
        }
        assert forall|i: int, j: int|
            0 <= i < self.free_list@.len() && 0 <= j < self.free_list@.len() && i != j implies
            self.free_list@[i] != self.free_list@[j] by {
            if i < old_self.free_list@.len() && j < old_self.free_list@.len() {
            } else if i < old_self.free_list@.len() {
                assert(old_self.free_list@[i] != index);
            } else if j < old_self.free_list@.len() {
                assert(old_self.free_list@[j] != index);
            }
        }
    }

    /// Get a reference to an allocated item.
    pub fn get(&self, id: NodeId) -> (r: Option<&T>)
        requires
            self.wf(),
        ensures
            r == (if self@.contains_key(id) {
                Some(&self@[id])
            } else {
                None
            }),
    {
        if id == NULL_NODE {
            return None;
        }
        let index = id as usize;
        if index < self.storage.len() && self.allocated_mask[index] {
            Some(&self.storage[index])
        } else {
            None
        }
    }

    /// Get a mutable reference to an allocated item.
    pub fn get_mut(&mut self, id: NodeId) -> (r: Option<&mut T>)
        requires
            old(self).wf(),
        ensures
            final(self).wf(),
            final(self).slot_count() == old(self).slot_count(),
            final(self).free_ids() == old(self).free_ids(),
            old(self)@.contains_key(id) ==> {
                &&& r is Some
                &&& *r.unwrap() == old(self)@[id]
                &&& final(self)@ == old(self)@.insert(id, *final(r.unwrap()))
            },
            !old(self)@.contains_key(id) ==> r is None && final(self)@ == old(self)@,
    {
        if id == NULL_NODE {
            return None;
        }
        let index = id as usize;
        if index < self.storage.len() && self.allocated_mask[index] {
            let r = &mut self.storage[index];
            Some(r)
        } else {
            None
        }
    }

    /// Check if an id is valid and allocated.
    pub fn contains(&self, id: NodeId) -> (r: bool)
        requires
            self.wf(),
        ensures
            r == self@.contains_key(id),
    {
        if id == NULL_NODE {
            return false;
        }
        let index = id as usize;
        index < self.storage.len() && self.allocated_mask[index]
    }

    /// Number of allocated items (slots minus free slots).
    pub fn len(&self) -> (r: usize)
        requires
            self.wf(),
        ensures
            r == self.slot_count() - self.free_ids().len(),
    {
        let mut count: usize = 0;
        let mut i: usize = 0;
        while i < self.allocated_mask.len()
            invariant
                self.wf(),
                i <= self.allocated_mask@.len(),
                count == count_true(self.allocated_mask@.subrange(0, i as int)),
                count <= i,
            decreases self.allocated_mask@.len() - i,
        {
            proof {
                assert(self.allocated_mask@.subrange(0, i as int + 1).drop_last()
                    =~= self.allocated_mask@.subrange(0, i as int));
            }
            if self.allocated_mask[i] {
                count = count + 1;
            }
            i = i + 1;
        }
        proof {
            assert(self.allocated_mask@.subrange(0, i as int) =~= self.allocated_mask@);
        }
        count
    }

    /// Check if the arena holds no allocated item.
    pub fn is_empty(&self) -> (r: bool)
        requires
            self.wf(),
        ensures
            r == (self.slot_count() == self.free_ids().len()),
    {
        self.len() == 0
    }

    /// Room in the storage's current allocation; never below the slot count.
    pub fn capacity(&self) -> (r: usize)
        ensures
            r >= self.slot_count(),
    {
        vec_capacity(&self.storage)
    }

    /// Clear all items from the arena.
    pub fn clear(&mut self)
        ensures
            final(self).wf(),
            final(self)@ == Map::<NodeId, T>::empty(),
            final(self).slot_count() == 0,
            final(self).free_ids() == Seq::<usize>::empty(),
    {
        self.storage.clear();
        self.allocated_mask.clear();
        self.free_list.clear();
        self.generation = 0;
        assert(self@ =~= Map::<NodeId, T>::empty());
    }

    /// The id an allocated slot `j` gets when the arena is compacted: the
    /// number of allocated slots before it.
    pub closed spec fn compacted_id(&self, j: int) -> nat {
        count_true(self.allocated_mask@.subrange(0, j))
    }

    /// Whether slot `j` holds an allocated item.
    pub closed spec fn slot_allocated(&self, j: int) -> bool {
        0 <= j < self.allocated_mask@.len() && self.allocated_mask@[j]
    }

    /// The item stored in slot `j`.
    pub closed spec fn slot_item(&self, j: int) -> T {
        self.storage@[j]
    }

    /// Copy the allocated items, in slot order, to the front of fresh
    /// storage with no free slots. Items get new ids: the old ones are no
    /// longer valid.
    pub fn compact(&mut self)
        where
            T: Clone,
        requires
            old(self).wf(),
        ensures
            final(self).wf(),
            final(self).free_ids() == Seq::<usize>::empty(),
            final(self).slot_count() == old(self).slot_count() - old(self).free_ids().len(),
            forall|id: NodeId| #[trigger] final(self)@.contains_key(id) <==> (id as int) < final(self).slot_count(),
            forall|j: int| #[trigger] old(self).slot_allocated(j) ==> {
                &&& final(self)@.contains_key(old(self).compacted_id(j) as NodeId)
                &&& cloned(old(self).slot_item(j), final(self)@[old(self).compacted_id(j) as NodeId])
            },
    {
        let ghost s0 = *self;
        let mut new_storage: Vec<T> = Vec::with_capacity(self.storage.len());
        let mut new_allocated_mask: Vec<bool> = Vec::with_capacity(self.allocated_mask.len());
        let mut old_index: usize = 0;
        proof {
            lemma_count_true_le(self.allocated_mask@);
        }
        while old_index < self.storage.len()
            invariant
                *self == s0,
                s0.wf(),
                old_index <= s0.storage@.len(),
                new_storage@.len() == count_true(s0.allocated_mask@.subrange(0, old_index as int)),
                new_allocated_mask@.len() == new_storage@.len(),
                forall|k: int| 0 <= k < new_allocated_mask@.len() ==> #[trigger] new_allocated_mask@[k],
                forall|j: int| 0 <= j < old_index && #[trigger] s0.slot_allocated(j) ==> {
                    &&& s0.compacted_id(j) < new_storage@.len()
                    &&& cloned(s0.slot_item(j), new_storage@[s0.compacted_id(j) as int])
                },
            decreases s0.storage@.len() - old_index,
        {
            proof {
                let m = s0.allocated_mask@;
                assert(m.subrange(0, old_index as int + 1).drop_last() =~= m.subrange(0, old_index as int));
                lemma_count_true_le(m.subrange(0, old_index as int));
            }
            if self.allocated_mask[old_index] {
                let item = self.storage[old_index].clone();
                new_storage.push(item);
                new_allocated_mask.push(true);
            }
            old_index += 1;
        }
        proof {
            assert(s0.allocated_mask@.subrange(0, old_index as int) =~= s0.allocated_mask@);
        }
        self.storage = new_storage;
        self.allocated_mask = new_allocated_mask;
        self.free_list.clear();
        proof {
            assert forall|k: int| 0 <= k <= self.allocated_mask@.len() implies count_true(#[trigger] self.allocated_mask@.subrange(0, k)) == k by {
                lemma_count_true_all(self.allocated_mask@, k);
            }
            assert(self.allocated_mask@.subrange(0, self.allocated_mask@.len() as int) =~= self.allocated_mask@);
            assert forall|j: int| #[trigger] s0.slot_allocated(j) implies {
                &&& self@.contains_key(s0.compacted_id(j) as NodeId)
                &&& cloned(s0.slot_item(j), self@[s0.compacted_id(j) as NodeId])
            } by {
                let c = s0.compacted_id(j);
                assert((c as NodeId) as int == c);
            }
        }
    }

    /// Number of slots, allocated or free.
    pub(crate) fn slot_total(&self) -> (r: usize)
        ensures
            r == self.slot_count(),
    {
        self.storage.len()
    }

    /// Number of free slots.
    pub fn free_count(&self) -> (r: usize)
        ensures
            r == self.free_ids().len(),
    {
        self.free_list.len()
    }

    /// Number of allocated items.
    pub fn allocated_count(&self) -> (r: usize)
        requires
            self.wf(),
        ensures
            r == self.slot_count() - self.free_ids().len(),
    {
        self.len()
    }

    /// Deallocate and reset the slot to `T::default()`.
    pub fn deallocate_with_default(&mut self, id: NodeId) -> (r: Option<T>)
        where
            T: Default,
        requires
            old(self).wf(),
        ensures
            final(self).wf(),
            final(self).slot_count() == old(self).slot_count(),
            old(self)@.contains_key(id) ==> {
                &&& r == Some(old(self)@[id])
                &&& final(self)@ == old(self)@.remove(id)
                &&& final(self).free_ids() == old(self).free_ids().push(id as usize)
            },
            !old(self)@.contains_key(id) ==> {
                &&& r is None
                &&& final(self)@ == old(self)@
                &&& final(self).free_ids() == old(self).free_ids()
            },
    {
        if id == NULL_NODE {
            return None;
        }
        let index = id as usize;
        if index >= self.allocated_mask.len() || !self.allocated_mask[index] {
            return None;
        }
        let ghost old_self = *self;
        proof {
            lemma_count_true_update(self.allocated_mask@, index as int, false);
        }
        self.allocated_mask.set(index, false);
        self.free_list.push(index);
        let mut old_value = T::default();
        std::mem::swap(&mut self.storage[index], &mut old_value);
        proof {
            self.lemma_push_free_keeps_wf(old_self, index);
            assert(self@ =~= old_self@.remove(id));
        }
        Some(old_value)
    }
}

impl<T> Default for CompactArena<T> {
    fn default() -> (r: Self)
        ensures
            r.wf(),
            r@ == Map::<NodeId, T>::empty(),
            r.slot_count() == 0,
            r.free_ids() == Seq::<usize>::empty(),
    {
        Self::new()
    }
}

} // verus!
