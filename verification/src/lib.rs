//! A B+ tree map stored in arenas of leaf and branch nodes, with its
//! arenas, node types and a second tree variant that keeps the node
//! capacity once per tree.
pub mod types;

pub use types::{
    KeyBound, KeyOrder, NodeId, NodeRef, TreeKey, DEFAULT_CAPACITY, MIN_CAPACITY, NULL_NODE,
    ROOT_NODE,
};
pub mod arena;
pub mod compact_arena;
pub mod optimized_arena;
pub mod optimized_noderef;
pub mod error;
pub mod flatten;
pub mod node;
pub mod global_capacity_nodes;
pub mod global_capacity_tree;
pub mod sorted;
pub mod tree;
pub mod tree_spec;
pub mod body_lemmas;
pub mod tree_insert;
pub mod rebalance_lemmas;
pub mod rebalance_views;
pub mod occupancy;
pub mod tree_remove;
pub mod tree_structure;
pub mod leaf_chain;
pub mod iteration;
pub mod range_queries;
pub mod validation;
pub mod perf_test;
pub mod compressed_node;
pub mod compressed_branch;
pub mod arena_access_analysis;
pub mod tree_counts;
pub mod checked_updates;

pub use compact_arena::CompactArena;
pub use error::{BPlusTreeError, BTreeResult, BTreeResultExt, InitResult, KeyResult, ModifyResult};
pub use node::{BranchNode, InsertResult, LeafNode, RemoveResult, SplitNodeData};
pub use tree::BPlusTreeMap;
pub use global_capacity_tree::GlobalCapacityBPlusTreeMap;
pub use global_capacity_nodes::{GlobalCapacityBranchNode, GlobalCapacityLeafNode};
