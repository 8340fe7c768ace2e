//! The index of a tree: from the identity of a node to its handle.

use crate::id::UniqueGenerator;
use crate::iterator::{nodes_below, traverse, IterNode};
use crate::noderef::NodeRef;
use crate::tree::model::TreeView;
use crate::tree::Tree;
use crate::NodeId;
use std::collections::BTreeMap;
use vstd::prelude::*;
use vstd::std_specs::cmp::OrdSpec;
use vstd::std_specs::iter::IteratorSpec;

verus! {

broadcast use vstd::std_specs::btree::group_btree_axioms;

/// The index that holds the nodes `items` of `tree`, put in one after the
/// other: each under its identity, a later node in place of an earlier one
/// of the same identity.
pub open spec fn index_of(tree: TreeView, items: Seq<IterNode>) -> Map<NodeId, NodeRef>
    decreases items.len(),
{
    if items.len() == 0 {
        Map::empty()
    } else {
        index_of(tree, items.drop_last()).insert(
            tree.node(items.last().handle()).id,
            items.last().handle(),
        )
    }
}

/// An ordered index from identities to handles.
#[derive(Debug)]
pub struct BTreeIndex {
    index: BTreeMap<NodeId, NodeRef>,
}

impl View for BTreeIndex {
    type V = Map<NodeId, NodeRef>;

    closed spec fn view(&self) -> Map<NodeId, NodeRef> {
        self.index@
    }
}

impl BTreeIndex {
    /// An empty index.
    pub fn new() -> (index: Self)
        ensures
            index@ == Map::<NodeId, NodeRef>::empty(),
    {
        BTreeIndex { index: BTreeMap::new() }
    }

    /// The index of the nodes below the root of a tree.
    pub fn from_tree<G>(tree: &Tree<G>) -> (index: Self) where G: UniqueGenerator<Output = NodeId>
        requires
            tree.wf(),
            tree@.root is Some,
        ensures
            index@ == index_of(tree@, nodes_below(tree@, tree@.root->0)),
            forall|id: NodeId| #[trigger] index@.contains_key(id) ==> tree@.contains(index@[id]),
    {
        Self::from_node(tree, tree.root())
    }

    /// The index of the nodes of the subtree below `node`.
    pub fn from_node<G>(tree: &Tree<G>, node: NodeRef) -> (index: Self) where
        G: UniqueGenerator<Output = NodeId>,

        requires
            tree.wf(),
            tree@.contains(node),
        ensures
            index@ == index_of(tree@, nodes_below(tree@, node)),
            forall|id: NodeId| #[trigger] index@.contains_key(id) ==> tree@.contains(index@[id]),
    {
        let items = traverse(tree, node);
        let mut index = Self::new();
        let mut k: usize = 0;
        while k < items.len()
            invariant
                k <= items.len(),
                forall|j: int| 0 <= j < items@.len() ==> tree@.contains((#[trigger] items@[j]).handle()),
                index@ == index_of(tree@, items@.take(k as int)),
                forall|id: NodeId| #[trigger] index@.contains_key(id) ==> tree@.contains(index@[id]),
            decreases items.len() - k,
        {
            let item = items[k];
            proof {
                assert(items@.take(k + 1).drop_last() == items@.take(k as int));
            }
            index.insert(tree.node(item.node()).id(), item.node());
            k += 1;
        }
        proof {
            assert(items@.take(k as int) == items@);
        }
        index
    }

    /// Puts a node into the index under an identity, in place of the node
    /// that was there under it.
    pub fn insert(&mut self, id: NodeId, node: NodeRef)
        ensures
            final(self)@ == old(self)@.insert(id, node),
    {
        self.index.insert(id, node);
    }

    /// The node with the identity, if the index holds one.
    pub fn get(&self, id: &NodeId) -> (node: Option<&NodeRef>)
        ensures
            match node {
                Some(r) => self@.contains_key(*id) && *r == self@[*id],
                None => !self@.contains_key(*id),
            },
    {
        self.index.get(id)
    }

    /// Takes the node with the identity out of the index, if it holds one.
    pub fn remove(&mut self, id: &NodeId) -> (node: Option<NodeRef>)
        ensures
            final(self)@ == old(self)@.remove(*id),
            match node {
                Some(r) => old(self)@.contains_key(*id) && r == old(self)@[*id],
                None => !old(self)@.contains_key(*id),
            },
    {
        self.index.remove(id)
    }

    /// The number of identities in the index.
    pub fn len(&self) -> (n: usize)
        ensures
            n == self@.len(),
    {
        self.index.len()
    }

    /// All identities in the index, in ascending order.
    pub fn get_ids(&self) -> (ids: Vec<NodeId>)
        ensures
            ids@.to_set() == self@.dom(),
            forall|i: int, j: int| 0 <= i < j < ids@.len() ==> ids@[i] < ids@[j],
    {
        let mut ids: Vec<NodeId> = Vec::new();
        let ghost pairs = self.index.iter().remaining();
        let ghost all: Seq<NodeId> = pairs.map_values(|kv: (&NodeId, &NodeRef)| *kv.0);
        for pair in it: self.index.iter()
            invariant
                pairs == it.seq(),
                all == pairs.map_values(|kv: (&NodeId, &NodeRef)| *kv.0),
                ids@ == all.take(it.index()),
        {
            let (key, _) = pair;
            ids.push(*key);
            proof {
                assert(ids@ =~= all.take(it.index() + 1));
            }
        }
        proof {
            assert(ids@ =~= all);
            assert(vstd::std_specs::btree::increasing_seq(all));
            assert forall|i: int, j: int| 0 <= i < j < ids@.len() implies ids@[i] < ids@[j] by {
                assert(all[i].cmp_spec(&all[j]) is Less);
            }
            assert(ids@.to_set() =~= self@.dom()) by {
                assert forall|k: NodeId| ids@.to_set().contains(k) <==> self@.dom().contains(k) by {
                    if ids@.contains(k) {
                        let w = choose|w: int| 0 <= w < ids@.len() && ids@[w] == k;
                        assert(self.index@.contains_key(*pairs[w].0));
                    }
                    if self.index@.contains_key(k) {
                        assert(pairs.contains((&k, &self.index@[k])));
                        let w = choose|w: int| 0 <= w < pairs.len() && pairs[w] == (&k, &self.index@[k]);
                        assert(all[w] == k);
                    }
                }
            }
        }
        ids
    }
}

} // verus!
