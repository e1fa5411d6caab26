//! A compact arena that only grows: items are appended and addressed by
//! their position, with a count of the items taken as allocated.
use crate::compact_arena::vec_capacity;
use crate::types::{NodeId, NULL_NODE};
use vstd::prelude::*;

verus! {

/// Arena that appends items and counts allocations.
#[derive(Debug)]
pub struct OptimizedArena<T> {
    storage: Vec<T>,
    free_head: NodeId,
    generation: u32,
    allocated_count: usize,
}

impl<T> View for OptimizedArena<T> {
    type V = Seq<T>;

    /// The items, by id.
    closed spec fn view(&self) -> Seq<T> {
        self.storage@
    }
}

impl<T> OptimizedArena<T> {
    /// Number of items counted as allocated.
    pub closed spec fn count(&self) -> nat {
        self.allocated_count as nat
    }

    /// How many times the arena was cleared, wrapping around.
    pub closed spec fn spec_generation(&self) -> u32 {
        self.generation
    }

    /// No freed id is kept, the count never exceeds the items, and ids fit
    /// `NodeId`.
    pub closed spec fn wf(&self) -> bool {
        &&& self.free_head == NULL_NODE
        &&& self.allocated_count <= self.storage@.len()
        &&& self.storage@.len() <= NULL_NODE
    }

    /// An empty arena.
    pub fn new() -> (r: Self)
        ensures
            r.wf(),
            r@ == Seq::<T>::empty(),
            r.count() == 0,
            r.spec_generation() == 0,
    {
        Self { storage: Vec::new(), free_head: NULL_NODE, generation: 0, allocated_count: 0 }
    }

    /// An empty arena with room reserved for `capacity` items.
    pub fn with_capacity(capacity: usize) -> (r: Self)
        ensures
            r.wf(),
            r@ == Seq::<T>::empty(),
            r.count() == 0,
            r.spec_generation() == 0,
    {
        Self { storage: Vec::with_capacity(capacity), free_head: NULL_NODE, generation: 0, allocated_count: 0 }
    }

    /// Append `item` and count it; its id is its position.
    pub fn allocate(&mut self, item: T) -> (id: NodeId)
        requires
            old(self).wf(),
            old(self)@.len() < NULL_NODE,
        ensures
            final(self).wf(),
            id as int == old(self)@.len(),
            final(self)@ == old(self)@.push(item),
            final(self).count() == old(self).count() + 1,
            final(self).spec_generation() == old(self).spec_generation(),
    {
        let id = if self.free_head != NULL_NODE {
            let id = self.free_head;
            self.free_head = NULL_NODE;
            id
        } else {
            let id = self.storage.len() as NodeId;
            self.storage.push(item);
            id
        };
        self.allocated_count += 1;
        id
    }

    /// Count one item less for an id within the arena; the item stays.
    pub fn deallocate(&mut self, id: NodeId) -> (r: bool)
        requires
            old(self).wf(),
        ensures
            final(self).wf(),
            final(self)@ == old(self)@,
            final(self).spec_generation() == old(self).spec_generation(),
            r == ((id as int) < old(self)@.len()),
            r ==> final(self).count() == if old(self).count() > 0 {
                old(self).count() - 1
            } else {
                0
            },
            !r ==> final(self).count() == old(self).count(),
    {
        let id_usize = id as usize;
        if id_usize >= self.storage.len() {
            return false;
        }
        self.allocated_count = self.allocated_count.saturating_sub(1);
        true
    }

    /// The item with id `id`, if there is one.
    pub fn get(&self, id: NodeId) -> (r: Option<&T>)
        ensures
            r == (if (id as int) < self@.len() {
                Some(&self@[id as int])
            } else {
                None
            }),
    {
        let id_usize = id as usize;
        if id_usize < self.storage.len() {
            Some(&self.storage[id_usize])
        } else {
            None
        }
    }

    /// The item with id `id`, for changing, if there is one.
    pub fn get_mut(&mut self, id: NodeId) -> (r: Option<&mut T>)
        requires
            old(self).wf(),
        ensures
            final(self).wf(),
            final(self).count() == old(self).count(),
            final(self).spec_generation() == old(self).spec_generation(),
            (id as int) < old(self)@.len() ==> r is Some && *r.unwrap() == old(self)@[id as int] && final(self)@
                == old(self)@.update(id as int, *final(r.unwrap())),
            (id as int) >= old(self)@.len() ==> r is None && final(self)@ == old(self)@,
    {
        let id_usize = id as usize;
        if id_usize < self.storage.len() {
            Some(&mut self.storage[id_usize])
        } else {
            None
        }
    }

    /// Number of items counted as allocated.
    pub fn len(&self) -> (r: usize)
        ensures
            r == self.count(),
    {
        self.allocated_count
    }

    /// Whether no item is counted as allocated.
    pub fn is_empty(&self) -> (r: bool)
        ensures
            r == (self.count() == 0),
    {
        self.allocated_count == 0
    }

    /// Size of the storage allocation, in items.
    pub fn capacity(&self) -> (r: usize)
        ensures
            r >= self@.len(),
    {
        vec_capacity(&self.storage)
    }

    /// Remove every item and start a new generation.
    pub fn clear(&mut self)
        ensures
            final(self).wf(),
            final(self)@ == Seq::<T>::empty(),
            final(self).count() == 0,
            final(self).spec_generation() == (if old(self).spec_generation() == u32::MAX {
                0
            } else {
                old(self).spec_generation() + 1
            }),
    {
        self.storage.clear();
        self.free_head = NULL_NODE;
        self.allocated_count = 0;
        self.generation = if self.generation == u32::MAX {
            0
        } else {
            self.generation + 1
        };
    }

    /// Release storage the items no longer need.
    pub fn shrink_to_fit(&mut self)
        requires
            old(self).wf(),
        ensures
            final(self).wf(),
            final(self)@ == old(self)@,
            final(self).count() == old(self).count(),
            final(self).spec_generation() == old(self).spec_generation(),
    {
        crate::arena::vec_shrink_to_fit(&mut self.storage);
    }
}

impl<T> Default for OptimizedArena<T> {
    fn default() -> (r: Self)
        ensures
            r.wf(),
            r@ == Seq::<T>::empty(),
            r.count() == 0,
    {
        Self::new()
    }
}

} // verus!
