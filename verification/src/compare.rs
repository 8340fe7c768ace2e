//! Tree comparison: two trees are equal where their roots cache the same
//! subtree hash.

use crate::id::UniqueGenerator;
use crate::tree::indexed::IndexedTree;
use crate::tree::Tree;
use crate::NodeId;
use vstd::prelude::*;
use vstd::std_specs::cmp::PartialEqSpecImpl;

verus! {

impl<G> PartialEq for Tree<G> where G: UniqueGenerator<Output = NodeId> {
    fn eq(&self, other: &Self) -> (r: bool) {
        match (self.root_hash(), other.root_hash()) {
            (Some(a), Some(b)) => a == b,
            (None, None) => true,
            _ => false,
        }
    }
}

impl<G> PartialEqSpecImpl for Tree<G> where G: UniqueGenerator<Output = NodeId> {
    open spec fn obeys_eq_spec() -> bool {
        true
    }

    open spec fn eq_spec(&self, other: &Self) -> bool {
        self@.root_hash() == other@.root_hash()
    }
}

impl<G> PartialEq for IndexedTree<G> where G: UniqueGenerator<Output = NodeId> {
    fn eq(&self, other: &Self) -> (r: bool) {
        match (self.tree().root_hash(), other.tree().root_hash()) {
            (Some(a), Some(b)) => a == b,
            (None, None) => true,
            _ => false,
        }
    }
}

impl<G> PartialEqSpecImpl for IndexedTree<G> where G: UniqueGenerator<Output = NodeId> {
    open spec fn obeys_eq_spec() -> bool {
        true
    }

    open spec fn eq_spec(&self, other: &Self) -> bool {
        self@.tree.root_hash() == other@.tree.root_hash()
    }
}

} // verus!
