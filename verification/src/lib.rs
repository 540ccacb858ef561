//! An in-memory, arena-backed n-ary tree.
//!
//! Nodes live in a generation-stamped slot table (the arena); a [`NodeId`]
//! names a node by slot and generation, so a handle to a removed node can
//! never be confused with a later occupant of the same slot. The tree keeps
//! parent / first-child / last-child / previous-sibling / next-sibling links
//! consistent through every structural operation.

pub mod detached;
pub mod iter;
pub mod node;
pub mod node_mut;
pub mod slab;
pub mod subtree;
pub mod tree;

pub use detached::DetachedTree;
pub use node::{Node, NodeId, NodePtr, RelativeType, Relatives};
pub use node_mut::NodeMut;
pub use slab::SlabIndex;
pub use subtree::SubTree;
pub use tree::Tree;
