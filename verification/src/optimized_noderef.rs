//! A node reference packed into one 64-bit word: the top bit tells a leaf
//! from a branch, the low 32 bits hold the node id.
use crate::types::{NodeId, NULL_NODE};
use vstd::prelude::*;

verus! {

/// The bit that marks a leaf.
pub const LEAF_FLAG: u64 = 0x8000_0000_0000_0000u64;

/// The bits that hold the node id.
pub const ID_MASK: u64 = 0x0000_0000_FFFF_FFFFu64;

/// Reference to a leaf or branch node in one 64-bit word.
#[derive(Debug, Clone, Copy, PartialEq, Eq, Structural)]
pub struct OptimizedNodeRef(u64);

impl OptimizedNodeRef {
    /// The id the reference holds.
    pub closed spec fn spec_id(self) -> NodeId {
        (self.0 & ID_MASK) as NodeId
    }

    /// Whether the reference names a leaf.
    pub closed spec fn spec_is_leaf(self) -> bool {
        self.0 & LEAF_FLAG != 0
    }

    /// The word holds the leaf bit and the id and no other bit.
    pub closed spec fn well_formed(self) -> bool {
        self.0 == Self::spec_word(self.spec_is_leaf(), self.spec_id())
    }

    /// The word of a reference: the leaf bit and the id, nothing else.
    pub open spec fn spec_word(is_leaf: bool, id: NodeId) -> u64 {
        if is_leaf {
            LEAF_FLAG | (id as u64)
        } else {
            id as u64
        }
    }

    /// Reference to the leaf `id`.
    pub fn new_leaf(id: NodeId) -> (r: Self)
        ensures
            r.spec_is_leaf(),
            r.spec_id() == id,
            r.well_formed(),
    {
        let w: u64 = LEAF_FLAG | (id as u64);
        assert(w & LEAF_FLAG != 0 && ((w & ID_MASK) as u32) == id) by (bit_vector)
            requires
                w == 0x8000_0000_0000_0000u64 | (id as u64),
        ;
        Self(w)
    }

    /// Reference to the branch `id`.
    pub fn new_branch(id: NodeId) -> (r: Self)
        ensures
            !r.spec_is_leaf(),
            r.spec_id() == id,
            r.well_formed(),
    {
        let w: u64 = id as u64;
        assert(w & LEAF_FLAG == 0 && ((w & ID_MASK) as u32) == id) by (bit_vector)
            requires
                w == id as u64,
        ;
        Self(w)
    }

    /// The node id.
    pub fn id(&self) -> (r: NodeId)
        ensures
            r == self.spec_id(),
    {
        (self.0 & ID_MASK) as NodeId
    }

    /// Whether the reference names a leaf.
    pub fn is_leaf(&self) -> (r: bool)
        ensures
            r == self.spec_is_leaf(),
    {
        (self.0 & LEAF_FLAG) != 0
    }

    /// Whether the reference names a branch.
    pub fn is_branch(&self) -> (r: bool)
        ensures
            r == !self.spec_is_leaf(),
    {
        !self.is_leaf()
    }

    /// The null reference: a branch with the null id.
    pub fn null() -> (r: Self)
        ensures
            !r.spec_is_leaf(),
            r.spec_id() == NULL_NODE,
            r.well_formed(),
    {
        Self::new_branch(NULL_NODE)
    }

    /// Whether the reference holds the null id.
    pub fn is_null(&self) -> (r: bool)
        ensures
            r == (self.spec_id() == NULL_NODE),
    {
        self.id() == NULL_NODE
    }
}

/// The word of a kind and an id gives back that kind and id.
proof fn lemma_word_parts(is_leaf: bool, id: NodeId)
    ensures
        (OptimizedNodeRef::spec_word(is_leaf, id) & LEAF_FLAG != 0) == is_leaf,
        (OptimizedNodeRef::spec_word(is_leaf, id) & ID_MASK) as NodeId == id,
{
    let w = OptimizedNodeRef::spec_word(is_leaf, id);
    if is_leaf {
        assert(w & LEAF_FLAG != 0 && ((w & ID_MASK) as u32) == id) by (bit_vector)
            requires
                w == 0x8000_0000_0000_0000u64 | (id as u64),
        ;
    } else {
        assert(w & LEAF_FLAG == 0 && ((w & ID_MASK) as u32) == id) by (bit_vector)
            requires
                w == id as u64,
        ;
    }
}

/// Two well-formed references are equal exactly when they name the same
/// kind of node with the same id.
pub proof fn lemma_eq_iff_same_node(a: OptimizedNodeRef, b: OptimizedNodeRef)
    requires
        a.well_formed(),
        b.well_formed(),
    ensures
        (a == b) <==> (a.spec_is_leaf() == b.spec_is_leaf() && a.spec_id() == b.spec_id()),
{
    lemma_word_parts(a.spec_is_leaf(), a.spec_id());
    lemma_word_parts(b.spec_is_leaf(), b.spec_id());
}

impl Default for OptimizedNodeRef {
    fn default() -> (r: Self)
        ensures
            r.spec_id() == NULL_NODE,
            !r.spec_is_leaf(),
    {
        Self::null()
    }
}

} // verus!
