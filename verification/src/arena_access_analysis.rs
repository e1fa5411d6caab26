//! An arena paired with a shared counter of the accesses made to it.
use crate::compact_arena::CompactArena;
use std::sync::atomic::AtomicUsize;
use std::sync::atomic::Ordering;
use std::sync::Arc;
use vstd::prelude::*;

verus! {

/// An arena with a counter, shared between threads, of accesses to it.
pub struct CountingArena<T> {
    inner: CompactArena<T>,
    access_count: Arc<AtomicUsize>,
}

impl<T> CountingArena<T> {
    /// The arena counted.
    pub closed spec fn spec_inner(&self) -> CompactArena<T> {
        self.inner
    }

    /// An empty arena whose counter starts at zero.
    pub fn new() -> (r: Self)
        ensures
            r.spec_inner().wf(),
            r.spec_inner()@ == Map::<crate::types::NodeId, T>::empty(),
    {
        Self { inner: CompactArena::new(), access_count: Arc::new(AtomicUsize::new(0)) }
    }

    /// The number of accesses counted so far. Other threads may change the
    /// counter at any time, so nothing is known of the number read.
    pub fn get_access_count(&self) -> usize {
        self.access_count.load(Ordering::Relaxed)
    }

    /// Set the counter back to zero.
    pub fn reset_count(&self) {
        self.access_count.store(0, Ordering::Relaxed);
    }
}

} // verus!
