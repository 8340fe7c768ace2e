//! # Arbutus
//!
//! An in-memory tree engine: nodes live in an arena owned by their tree and are
//! addressed by stable handles, every node caches a hash of its whole subtree,
//! and a diff engine computes an ordered patch that turns one tree into a
//! structural copy of another.

pub mod builder;
pub mod compare;
pub mod diff;
pub mod edit;
pub mod hash;
pub mod id;
pub mod index;
pub mod iterator;
pub mod node;
pub mod noderef;
pub mod tree;

pub use builder::{NodeBuilder, TreeBuilder};
pub use diff::{TreeDiff, TreePatch, TreePatchOperation};
pub use id::{AtomicU64Generator, UniqueGenerator, UniqueId, Uuid, UuidGenerator};
pub use iterator::leaf;
pub use iterator::NodePosition;
pub use node::Node;
pub use noderef::NodeRef;
pub use tree::indexed::IndexedTree;
pub use tree::Tree;

use vstd::prelude::*;

verus! {

/// Vertical depth of a node below the root.
pub type NodeDepth = usize;

/// Horizontal index of a node among all nodes of its depth.
pub type NodeIndex = usize;

/// Identity of a node inside a tree.
pub type NodeId = u64;

/// The generator that trees use unless told otherwise.
pub type IdGenerator = id::AtomicU64Generator;

} // verus!
