//! Core identifiers, node references and the key ordering used by every tree.
use std::marker::PhantomData;
use vstd::prelude::*;

verus! {

/// Identifier of a node slot inside an arena.
pub type NodeId = u32;

/// Sentinel id that never names an allocated node (`u32::MAX`).
pub const NULL_NODE: NodeId = 0xffff_ffffu32;

/// Id of the first node that a fresh arena hands out.
pub const ROOT_NODE: NodeId = 0u32;

/// Smallest node capacity a tree accepts.
pub const MIN_CAPACITY: usize = 4usize;

/// Capacity used by the `with_default_capacity` constructors.
pub const DEFAULT_CAPACITY: usize = 16usize;

/// Result of comparing two keys.
#[derive(Clone, Copy, Debug, PartialEq, Eq, Structural)]
pub enum KeyOrder {
    Less,
    Equal,
    Greater,
}

/// Keys stored in the trees: copyable values with a total order, given by an
/// integer rank that distinct keys never share.
pub trait TreeKey: Copy + Sized {
    /// The position of the key in the total order.
    spec fn rank(self) -> int;

    /// Distinct keys have distinct ranks.
    proof fn lemma_rank_injective(a: Self, b: Self)
        ensures
            a.rank() == b.rank() ==> a == b,
    ;

    /// Three-way comparison by rank.
    fn compare_key(&self, other: &Self) -> (o: KeyOrder)
        ensures
            (o == KeyOrder::Less) == (self.rank() < other.rank()),
            (o == KeyOrder::Equal) == (self.rank() == other.rank()),
            (o == KeyOrder::Greater) == (self.rank() > other.rank()),
    ;
}

impl TreeKey for i8 {
    open spec fn rank(self) -> int {
        self as int
    }

    proof fn lemma_rank_injective(a: Self, b: Self) {
    }

    fn compare_key(&self, other: &Self) -> (o: KeyOrder) {
        if *self < *other {
            KeyOrder::Less
        } else if *self == *other {
            KeyOrder::Equal
        } else {
            KeyOrder::Greater
        }
    }
}

impl TreeKey for i16 {
    open spec fn rank(self) -> int {
        self as int
    }

    proof fn lemma_rank_injective(a: Self, b: Self) {
    }

    fn compare_key(&self, other: &Self) -> (o: KeyOrder) {
        if *self < *other {
            KeyOrder::Less
        } else if *self == *other {
            KeyOrder::Equal
        } else {
            KeyOrder::Greater
        }
    }
}

impl TreeKey for i32 {
    open spec fn rank(self) -> int {
        self as int
    }

    proof fn lemma_rank_injective(a: Self, b: Self) {
    }

    fn compare_key(&self, other: &Self) -> (o: KeyOrder) {
        if *self < *other {
            KeyOrder::Less
        } else if *self == *other {
            KeyOrder::Equal
        } else {
            KeyOrder::Greater
        }
    }
}

impl TreeKey for i64 {
    open spec fn rank(self) -> int {
        self as int
    }

    proof fn lemma_rank_injective(a: Self, b: Self) {
    }

    fn compare_key(&self, other: &Self) -> (o: KeyOrder) {
        if *self < *other {
            KeyOrder::Less
        } else if *self == *other {
            KeyOrder::Equal
        } else {
            KeyOrder::Greater
        }
    }
}

impl TreeKey for isize {
    open spec fn rank(self) -> int {
        self as int
    }

    proof fn lemma_rank_injective(a: Self, b: Self) {
    }

    fn compare_key(&self, other: &Self) -> (o: KeyOrder) {
        if *self < *other {
            KeyOrder::Less
        } else if *self == *other {
            KeyOrder::Equal
        } else {
            KeyOrder::Greater
        }
    }
}

impl TreeKey for u8 {
    open spec fn rank(self) -> int {
        self as int
    }

    proof fn lemma_rank_injective(a: Self, b: Self) {
    }

    fn compare_key(&self, other: &Self) -> (o: KeyOrder) {
        if *self < *other {
            KeyOrder::Less
        } else if *self == *other {
            KeyOrder::Equal
        } else {
            KeyOrder::Greater
        }
    }
}

impl TreeKey for u16 {
    open spec fn rank(self) -> int {
        self as int
    }

    proof fn lemma_rank_injective(a: Self, b: Self) {
    }

    fn compare_key(&self, other: &Self) -> (o: KeyOrder) {
        if *self < *other {
            KeyOrder::Less
        } else if *self == *other {
            KeyOrder::Equal
        } else {
            KeyOrder::Greater
        }
    }
}

impl TreeKey for u32 {
    open spec fn rank(self) -> int {
        self as int
    }

    proof fn lemma_rank_injective(a: Self, b: Self) {
    }

    fn compare_key(&self, other: &Self) -> (o: KeyOrder) {
        if *self < *other {
            KeyOrder::Less
        } else if *self == *other {
            KeyOrder::Equal
        } else {
            KeyOrder::Greater
        }
    }
}

impl TreeKey for u64 {
    open spec fn rank(self) -> int {
        self as int
    }

    proof fn lemma_rank_injective(a: Self, b: Self) {
    }

    fn compare_key(&self, other: &Self) -> (o: KeyOrder) {
        if *self < *other {
            KeyOrder::Less
        } else if *self == *other {
            KeyOrder::Equal
        } else {
            KeyOrder::Greater
        }
    }
}

impl TreeKey for usize {
    open spec fn rank(self) -> int {
        self as int
    }

    proof fn lemma_rank_injective(a: Self, b: Self) {
    }

    fn compare_key(&self, other: &Self) -> (o: KeyOrder) {
        if *self < *other {
            KeyOrder::Less
        } else if *self == *other {
            KeyOrder::Equal
        } else {
            KeyOrder::Greater
        }
    }
}

/// Reference to a node stored in one of a tree's arenas.
#[derive(Debug, PartialEq, Eq)]
pub enum NodeRef<K, V> {
    Leaf(NodeId, PhantomData<(K, V)>),
    Branch(NodeId, PhantomData<(K, V)>),
}

impl<K, V> Clone for NodeRef<K, V> {
    fn clone(&self) -> (r: Self)
        ensures
            r == *self,
    {
        *self
    }
}

impl<K, V> Copy for NodeRef<K, V> {

}

impl<K, V> NodeRef<K, V> {
    /// The raw id inside the reference.
    pub open spec fn spec_id(&self) -> NodeId {
        match *self {
            NodeRef::Leaf(id, _) => id,
            NodeRef::Branch(id, _) => id,
        }
    }

    /// Return the raw node ID.
    #[verifier::when_used_as_spec(spec_id)]
    pub fn id(&self) -> (r: NodeId)
        ensures
            r == self.spec_id(),
    {
        match *self {
            NodeRef::Leaf(id, _) => id,
            NodeRef::Branch(id, _) => id,
        }
    }

    /// Returns true if this reference points to a leaf node.
    pub fn is_leaf(&self) -> (r: bool)
        ensures
            r == (*self is Leaf),
    {
        match *self {
            NodeRef::Leaf(_, _) => true,
            NodeRef::Branch(_, _) => false,
        }
    }
}

/// Reference to a leaf with the given id.
pub open spec fn leaf_ref<K, V>(id: NodeId) -> NodeRef<K, V> {
    NodeRef::Leaf(id, PhantomData)
}

/// Reference to a branch with the given id.
pub open spec fn branch_ref<K, V>(id: NodeId) -> NodeRef<K, V> {
    NodeRef::Branch(id, PhantomData)
}

/// One end of a key range.
#[derive(Clone, Copy, Debug)]
pub enum KeyBound<K> {
    Included(K),
    Excluded(K),
    Unbounded,
}

/// Whether `k` lies on the allowed side of a lower bound.
pub open spec fn above_lower<K: TreeKey>(b: KeyBound<K>, k: K) -> bool {
    match b {
        KeyBound::Included(s) => s.rank() <= k.rank(),
        KeyBound::Excluded(s) => s.rank() < k.rank(),
        KeyBound::Unbounded => true,
    }
}

/// Whether `k` lies on the allowed side of an upper bound.
pub open spec fn below_upper<K: TreeKey>(b: KeyBound<K>, k: K) -> bool {
    match b {
        KeyBound::Included(e) => k.rank() <= e.rank(),
        KeyBound::Excluded(e) => k.rank() < e.rank(),
        KeyBound::Unbounded => true,
    }
}

/// Leaf node for keys and values that are plain copyable data.
pub type FastLeafNode<K, V> = crate::compressed_node::CompressedLeafNode<K, V>;

/// Leaf node for any keys and values.
pub type FlexibleLeafNode<K, V> = crate::node::LeafNode<K, V>;

/// The leaf node type that suits a pair of key and value types.
pub trait OptimalLeafNode<K, V> {
    type Node;
}

/// Copyable keys and values get the compressed leaf.
impl<K: TreeKey, V: Copy> OptimalLeafNode<K, V> for (K, V) {
    type Node = crate::compressed_node::CompressedLeafNode<K, V>;
}

} // verus!
