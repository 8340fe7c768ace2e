//! Handles to nodes.

use vstd::prelude::*;

verus! {

/// A handle to one node of a tree: the node's slot in the arena of the tree
/// that made the handle. Copies of a handle name the same node, and a handle
/// stays good while the tree lives, whatever is inserted or removed around
/// its node.
#[derive(Debug, Clone, Copy, PartialEq, Eq, Hash, Structural)]
pub struct NodeRef {
    pub(crate) slot: usize,
}

impl NodeRef {
    /// The slot that the handle names.
    pub open(crate) spec fn at(self) -> int {
        self.slot as int
    }

    /// The handle of a slot.
    pub open(crate) spec fn of(slot: int) -> NodeRef {
        NodeRef { slot: slot as usize }
    }

    pub(crate) fn new(slot: usize) -> (r: Self)
        ensures
            r.at() == slot,
            r == NodeRef::of(slot as int),
    {
        NodeRef { slot }
    }

    /// The number of the slot that the handle names.
    pub fn slot(&self) -> (slot: usize)
        ensures
            slot == self.at(),
    {
        self.slot
    }
}

} // verus!
