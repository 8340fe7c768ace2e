//! A tree together with an index of its nodes and a list of its leaves.

use crate::diff::{patch_applied, TreePatch};
use crate::id::UniqueGenerator;
use crate::index::{index_of, BTreeIndex};
use crate::iterator::laws::{handles, lemma_traversal_is_preorder};
use crate::iterator::leaf::{children_first, lemma_leaves_up_reaches_all, LeafIter, LeafView};
use crate::iterator::{nodes_below, traverse, IterNode};
use crate::node::NodeView;
use crate::noderef::NodeRef;
use crate::tree::model::TreeView;
use crate::tree::Tree;
use crate::NodeId;
use vstd::prelude::*;

verus! {

/// Those of the nodes `items` that have no child list, in order.
pub open spec fn leaves_of(tree: TreeView, items: Seq<IterNode>) -> Seq<NodeRef>
    decreases items.len(),
{
    if items.len() == 0 {
        Seq::empty()
    } else if tree.is_leaf(items.last().handle()) {
        leaves_of(tree, items.drop_last()).push(items.last().handle())
    } else {
        leaves_of(tree, items.drop_last())
    }
}

/// What an indexed tree holds: the tree, the handles of its leaves, and the
/// index from identities to handles.
pub struct IndexedView {
    pub tree: TreeView,
    pub leaves: Seq<NodeRef>,
    pub index: Map<NodeId, NodeRef>,
}

/// A tree with an index of its nodes by identity and a list of its leaves.
/// Index and leaves are made when the tree is indexed, and follow the
/// insertions and removals that are made through the indexed tree. They do
/// not follow a patch: after one, `reindex` makes them anew.
#[derive(Debug)]
pub struct IndexedTree<G = crate::IdGenerator> where G: UniqueGenerator<Output = NodeId> {
    pub(crate) tree: Tree<G>,
    pub(crate) leaves: Vec<NodeRef>,
    pub(crate) index: BTreeIndex,
}

impl<G> View for IndexedTree<G> where G: UniqueGenerator<Output = NodeId> {
    type V = IndexedView;

    closed spec fn view(&self) -> IndexedView {
        IndexedView { tree: self.tree@, leaves: self.leaves@, index: self.index@ }
    }
}

impl IndexedView {
    /// The tree is well formed, and leaves and index name nodes of it.
    pub open spec fn wf(self) -> bool {
        &&& self.tree.wf()
        &&& forall|k: int| 0 <= k < self.leaves.len() ==> self.tree.contains(#[trigger] self.leaves[k])
        &&& forall|id: NodeId| #[trigger]
            self.index.contains_key(id) ==> self.tree.contains(self.index[id])
    }
}

impl<G> IndexedTree<G> where G: UniqueGenerator<Output = NodeId> {
    /// The indexed tree is well formed.
    pub open spec fn wf(&self) -> bool {
        self@.wf()
    }

    /// Create a new empty indexed tree.
    pub fn new() -> (indexed: Self)
        ensures
            indexed.wf(),
            indexed@.tree.nodes.len() == 0,
            indexed@.tree.root is None,
            !indexed@.tree.has_generator,
            indexed@.leaves.len() == 0,
            indexed@.index == Map::<NodeId, NodeRef>::empty(),
    {
        IndexedTree { tree: Tree::new(), leaves: Vec::new(), index: BTreeIndex::new() }
    }

    // The leaves among the nodes below `root`, in pre-order.
    fn find_leaves(tree: &Tree<G>, root: NodeRef) -> (leaves: Vec<NodeRef>)
        requires
            tree.wf(),
            tree@.contains(root),
        ensures
            leaves@ == leaves_of(tree@, nodes_below(tree@, root)),
            forall|k: int| 0 <= k < leaves@.len() ==> tree@.contains(#[trigger] leaves@[k]),
    {
        let items = traverse(tree, root);
        let mut leaves: Vec<NodeRef> = Vec::new();
        let mut k: usize = 0;
        while k < items.len()
            invariant
                k <= items.len(),
                forall|j: int| 0 <= j < items@.len() ==> tree@.contains((#[trigger] items@[j]).handle()),
                leaves@ == leaves_of(tree@, items@.take(k as int)),
                forall|j: int| 0 <= j < leaves@.len() ==> tree@.contains(#[trigger] leaves@[j]),
            decreases items.len() - k,
        {
            let item = items[k];
            proof {
                assert(items@.take(k + 1).drop_last() == items@.take(k as int));
            }
            if !tree.has_children(item.node()) {
                leaves.push(item.node());
            }
            k += 1;
        }
        proof {
            assert(items@.take(k as int) == items@);
        }
        leaves
    }

    /// Indexes a tree: every node below the root is put into the index, and
    /// the nodes without a child list are listed as leaves, in pre-order.
    pub fn from_tree(tree: Tree<G>) -> (indexed: Self)
        requires
            tree.wf(),
            tree@.root is Some,
        ensures
            indexed.wf(),
            indexed@.tree == tree@,
            indexed@.index == index_of(tree@, nodes_below(tree@, tree@.root->0)),
            indexed@.leaves == leaves_of(tree@, nodes_below(tree@, tree@.root->0)),
    {
        let index = BTreeIndex::from_tree(&tree);
        let leaves = Self::find_leaves(&tree, tree.root());
        IndexedTree { tree, index, leaves }
    }

    /// The tree.
    pub fn tree(&self) -> (tree: &Tree<G>)
        ensures
            tree@ == self@.tree,
    {
        &self.tree
    }

    /// The index.
    pub fn index(&self) -> (index: &BTreeIndex)
        ensures
            index@ == self@.index,
    {
        &self.index
    }

    /// The leaves.
    pub fn leaves(&self) -> (leaves: &Vec<NodeRef>)
        ensures
            leaves@ == self@.leaves,
    {
        &self.leaves
    }

    /// The root of the tree.
    pub fn root(&self) -> (r: NodeRef)
        requires
            self@.tree.root is Some,
        ensures
            Some(r) == self@.tree.root,
    {
        self.tree.root()
    }

    /// The node with the identity, if the index holds one.
    pub fn get_node(&self, id: &NodeId) -> (node: Option<&NodeRef>)
        ensures
            match node {
                Some(r) => self@.index.contains_key(*id) && *r == self@.index[*id],
                None => !self@.index.contains_key(*id),
            },
    {
        self.index.get(id)
    }

    /// Makes a node for `data` and inserts it as a child of the node with
    /// the identity `parent_id` at `index`. The new node is put into the
    /// index and listed as a leaf. Returns `None`, with index and leaves
    /// unchanged, where the index holds no node with that identity, the tree
    /// has no generator, or `index` lies behind the end of the child list; in
    /// the last case the new node stays in the arena, without a parent.
    pub fn insert_child(&mut self, parent_id: NodeId, index: usize, data: Vec<u8>) -> (done: Option<()>)
        requires
            old(self).wf(),
        ensures
            final(self).wf(),
            done is Some <==> old(self)@.index.contains_key(parent_id) && old(self)@.tree.has_generator
                && index <= old(self)@.tree.children(old(self)@.index[parent_id]).len(),
            !old(self)@.index.contains_key(parent_id) || !old(self)@.tree.has_generator ==> final(self)@
                == old(self)@,
            old(self)@.index.contains_key(parent_id) && old(self)@.tree.has_generator ==> {
                let parent = old(self)@.index[parent_id];
                let node = NodeRef::of(old(self)@.tree.nodes.len() as int);
                let made = TreeView {
                    nodes: old(self)@.tree.nodes.push(
                        NodeView {
                            id: final(self)@.tree.node(node).id,
                            data: data@,
                            parent: None,
                            children: None,
                            position: None,
                            subtree_hash: 0,
                        },
                    ),
                    ..old(self)@.tree
                };
                if done is Some {
                    &&& final(self)@.tree == made.adopt(parent, index as int, node)
                    &&& final(self)@.index == old(self)@.index.insert(
                        final(self)@.tree.node(node).id,
                        node,
                    )
                    &&& final(self)@.leaves == old(self)@.leaves.push(node)
                } else {
                    &&& final(self)@.tree == made
                    &&& final(self)@.index == old(self)@.index
                    &&& final(self)@.leaves == old(self)@.leaves
                }
            },
    {
        let parent = match self.index.get(&parent_id) {
            Some(parent) => *parent,
            None => {
                return None;
            },
        };
        let node = match self.tree.create_node(data) {
            Some(node) => node,
            None => {
                return None;
            },
        };
        let ghost made = self.tree@;
        proof {
            assert(old(self)@.tree.contains(parent));
            assert(made.node(node).parent is None);
            assert(made.can_adopt(parent, node));
            assert(made.children(parent) == old(self)@.tree.children(parent));
            assert(self.leaves@ == old(self)@.leaves);
            assert(self.index@ == old(self)@.index);
        }
        match self.tree.insert_child(parent, index, node) {
            Some(_) => {},
            None => {
                return None;
            },
        }
        let id = self.tree.node(node).id();
        self.index.insert(id, node);
        self.leaves.push(node);
        proof {
            assert(made.node(node).id == self.tree@.node(node).id);
        }
        Some(())
    }

    /// Index and leaves are made anew from the tree.
    pub fn reindex(&mut self)
        requires
            old(self).wf(),
            old(self)@.tree.root is Some,
        ensures
            final(self).wf(),
            final(self)@.tree == old(self)@.tree,
            final(self)@.index == index_of(
                old(self)@.tree,
                nodes_below(old(self)@.tree, old(self)@.tree.root->0),
            ),
            final(self)@.leaves == leaves_of(
                old(self)@.tree,
                nodes_below(old(self)@.tree, old(self)@.tree.root->0),
            ),
    {
        self.index = BTreeIndex::from_tree(&self.tree);
        self.leaves = Self::find_leaves(&self.tree, self.tree.root());
    }

    /// Applies a patch to the tree, taking copies from `source`. Index and
    /// leaves are not touched.
    pub fn apply_patch(&mut self, patch: &TreePatch, source: &Tree<G>)
        requires
            old(self).wf(),
            source.wf(),
            old(self)@.tree.has_generator,
        ensures
            final(self).wf(),
            final(self)@.index == old(self)@.index,
            final(self)@.leaves == old(self)@.leaves,
            final(self)@.tree.has_generator,
            final(self)@.tree.root == old(self)@.tree.root,
            patch_applied(old(self)@.tree, final(self)@.tree, patch@, source@),
            old(self)@.tree.hashed() && source@.hashed() ==> final(self)@.tree.hashed(),
    {
        patch.apply(&mut self.tree, source);
        proof {
            assert(self.leaves@ == old(self)@.leaves);
            assert(self.index@ == old(self)@.index);
            assert forall|k: int| 0 <= k < self.leaves@.len() implies self.tree@.contains(
                #[trigger] self.leaves@[k],
            ) by {
                assert(old(self)@.tree.contains(old(self)@.leaves[k]));
            }
            assert forall|id: NodeId| #[trigger] self.index@.contains_key(id) implies self.tree@.contains(
                self.index@[id],
            ) by {
                assert(old(self)@.index.contains_key(id));
            }
        }
    }

    /// Converts the indexed tree back into its tree.
    pub fn into_tree(self) -> (tree: Tree<G>)
        ensures
            tree@ == self@.tree,
    {
        self.tree
    }

    /// Get a [`LeafIter`] instance for this tree: a traversal that goes
    /// through the tree from the leaves up.
    pub fn leaf_iter(&self) -> (iter: LeafIter)
        ensures
            iter@ == (LeafView {
                queue: self@.leaves.reverse(),
                seen: self@.leaves.to_set(),
                done: Set::empty(),
            }),
    {
        LeafIter::new(&self.leaves)
    }

    // The identities of the nodes of the subtree below `node`, in pre-order.
    fn subtree_ids(tree: &Tree<G>, node: NodeRef) -> (ids: Vec<NodeId>)
        requires
            tree.wf(),
            tree@.contains(node),
        ensures
            ids@ == ids_below(tree@, node),
    {
        let items = traverse(tree, node);
        let mut ids: Vec<NodeId> = Vec::new();
        let mut k: usize = 0;
        while k < items.len()
            invariant
                k <= items.len(),
                items@ == nodes_below(tree@, node),
                forall|j: int| 0 <= j < items@.len() ==> tree@.contains((#[trigger] items@[j]).handle()),
                ids@ == ids_below(tree@, node).take(k as int),
            decreases items.len() - k,
        {
            ids.push(tree.node(items[k].node()).id());
            proof {
                assert(ids@ =~= ids_below(tree@, node).take(k + 1));
            }
            k += 1;
        }
        proof {
            assert(ids_below(tree@, node).take(k as int) == ids_below(tree@, node));
        }
        ids
    }

    /// Removes a node from the child list of its parent, and the node and
    /// all nodes below it from the index and from the leaves. Returns `None`,
    /// with index and leaves unchanged, where the handle names no node or the
    /// index misses the identity of one of these nodes.
    pub fn remove_node(&mut self, node: NodeRef) -> (done: Option<()>)
        requires
            old(self).wf(),
        ensures
            final(self).wf(),
            final(self)@.tree == match old(self)@.tree.listed_at(node) {
                Some(index) => old(self)@.tree.disown(old(self)@.tree.node(node).parent->0, index),
                None => old(self)@.tree,
            },
            done is Some <==> old(self)@.tree.contains(node) && ids_below(
                final(self)@.tree,
                node,
            ).to_set().subset_of(old(self)@.index.dom()),
            if done is Some {
                &&& final(self)@.index == old(self)@.index.remove_keys(
                    ids_below(final(self)@.tree, node).to_set(),
                )
                &&& final(self)@.leaves == old(self)@.leaves.filter(
                    |leaf: NodeRef|
                        !ids_below(final(self)@.tree, node).contains(final(self)@.tree.node(leaf).id),
                )
            } else {
                &&& final(self)@.index == old(self)@.index
                &&& final(self)@.leaves == old(self)@.leaves
            },
    {
        // Remove the node from the tree.
        self.tree.remove_node(node);
        let ghost tree = self.tree@;
        proof {
            assert(self.leaves@ == old(self)@.leaves);
            assert(self.index@ == old(self)@.index);
            assert(tree.nodes.len() == old(self)@.tree.nodes.len());
            assert forall|k: int| 0 <= k < self.leaves@.len() implies tree.contains(
                #[trigger] self.leaves@[k],
            ) by {
                assert(old(self)@.tree.contains(old(self)@.leaves[k]));
            }
            assert forall|id: NodeId| #[trigger] self.index@.contains_key(id) implies tree.contains(
                self.index@[id],
            ) by {
                assert(old(self)@.index.contains_key(id));
            }
        }
        if !self.tree.contains(node) {
            return None;
        }
        // The identities of the node and of the nodes below it.
        let ids = Self::subtree_ids(&self.tree, node);
        let mut k: usize = 0;
        while k < ids.len()
            invariant
                k <= ids.len(),
                self@ == (IndexedView { tree, ..old(self)@ }),
                self.wf(),
                tree == (match old(self)@.tree.listed_at(node) {
                    Some(index) => old(self)@.tree.disown(old(self)@.tree.node(node).parent->0, index),
                    None => old(self)@.tree,
                }),
                ids@ == ids_below(tree, node),
                old(self)@.tree.contains(node),
                tree.wf(),
                forall|j: int| 0 <= j < k ==> self.index@.contains_key(#[trigger] ids@[j]),
            decreases ids.len() - k,
        {
            if self.index.get(&ids[k]).is_none() {
                proof {
                    assert(ids@.contains(ids@[k as int]));
                }
                return None;
            }
            k += 1;
        }
        proof {
            assert forall|id: NodeId| ids@.to_set().contains(id) implies old(self)@.index.dom().contains(
                id,
            ) by {
                let j = choose|j: int| 0 <= j < ids@.len() && ids@[j] == id;
                assert(self.index@.contains_key(ids@[j]));
            }
        }
        // Remove them from the index.
        let mut k: usize = 0;
        while k < ids.len()
            invariant
                k <= ids.len(),
                self.tree@ == tree,
                self.leaves@ == old(self)@.leaves,
                self.index@ == old(self)@.index.remove_keys(ids@.take(k as int).to_set()),
                ids@.to_set().subset_of(old(self)@.index.dom()),
                forall|j: int| 0 <= j < self.leaves@.len() ==> tree.contains(#[trigger] self.leaves@[j]),
                forall|id: NodeId| #[trigger]
                    old(self)@.index.contains_key(id) ==> tree.contains(old(self)@.index[id]),
                tree == (match old(self)@.tree.listed_at(node) {
                    Some(index) => old(self)@.tree.disown(old(self)@.tree.node(node).parent->0, index),
                    None => old(self)@.tree,
                }),
                ids@ == ids_below(tree, node),
                old(self)@.tree.contains(node),
                tree.wf(),
            decreases ids.len() - k,
        {
            let ghost before = self.index@;
            let _ = self.index.remove(&ids[k]);
            proof {
                let earlier = ids@.take(k as int);
                let now = ids@.take(k + 1);
                assert forall|x: NodeId| now.to_set().contains(x) == (earlier.to_set().contains(x) || x
                    == ids@[k as int]) by {
                    if earlier.contains(x) {
                        let w = choose|w: int| 0 <= w < earlier.len() && earlier[w] == x;
                        assert(now[w] == x);
                    }
                    if now.contains(x) {
                        let w = choose|w: int| 0 <= w < now.len() && now[w] == x;
                        if w < k {
                            assert(earlier[w] == x);
                        }
                    }
                    if x == ids@[k as int] {
                        assert(now[k as int] == x);
                    }
                }
                assert(before.remove(ids@[k as int]) =~= old(self)@.index.remove_keys(now.to_set()));
            }
            k += 1;
        }
        proof {
            assert(ids@.take(k as int) == ids@);
        }
        // Remove them from the leaves.
        let mut kept: Vec<NodeRef> = Vec::new();
        let ghost keep = |leaf: NodeRef| !ids@.contains(tree.node(leaf).id);
        let mut k: usize = 0;
        while k < self.leaves.len()
            invariant
                k <= self.leaves.len(),
                self.tree@ == tree,
                self.leaves@ == old(self)@.leaves,
                self.index@ == old(self)@.index.remove_keys(ids@.to_set()),
                ids@.to_set().subset_of(old(self)@.index.dom()),
                forall|id: NodeId| #[trigger]
                    old(self)@.index.contains_key(id) ==> tree.contains(old(self)@.index[id]),
                tree == (match old(self)@.tree.listed_at(node) {
                    Some(index) => old(self)@.tree.disown(old(self)@.tree.node(node).parent->0, index),
                    None => old(self)@.tree,
                }),
                ids@ == ids_below(tree, node),
                old(self)@.tree.contains(node),
                tree.wf(),
                keep == |leaf: NodeRef| !ids@.contains(tree.node(leaf).id),
                forall|j: int| 0 <= j < self.leaves@.len() ==> tree.contains(#[trigger] self.leaves@[j]),
                forall|j: int| 0 <= j < kept@.len() ==> tree.contains(#[trigger] kept@[j]),
                kept@ == self.leaves@.take(k as int).filter(keep),
            decreases self.leaves.len() - k,
        {
            let leaf = self.leaves[k];
            let id = self.tree.node(leaf).id();
            proof {
                self.leaves@.take(k as int).lemma_filter_push(leaf, keep);
                assert(self.leaves@.take(k + 1) == self.leaves@.take(k as int).push(leaf));
            }
            if !has_id(&ids, id) {
                kept.push(leaf);
            }
            k += 1;
        }
        proof {
            assert(self.leaves@.take(k as int) == self.leaves@);
        }
        self.leaves = kept;
        Some(())
    }
}

// Whether the list holds the identity.
fn has_id(ids: &Vec<NodeId>, id: NodeId) -> (found: bool)
    ensures
        found == ids@.contains(id),
{
    let mut k: usize = 0;
    while k < ids.len()
        invariant
            k <= ids.len(),
            forall|j: int| 0 <= j < k ==> ids@[j] != id,
        decreases ids.len() - k,
    {
        if ids[k] == id {
            return true;
        }
        k += 1;
    }
    false
}

/// The identities of the nodes of the subtree below `node`, in pre-order.
pub open spec fn ids_below(tree: TreeView, node: NodeRef) -> Seq<NodeId> {
    nodes_below(tree, node).map_values(|n: IterNode| tree.node(n.handle()).id)
}

/// The leaves among the nodes are those of the nodes that have no child
/// list, and none of them stands twice where none of the nodes does.
pub proof fn lemma_leaves_of(tree: TreeView, items: Seq<IterNode>)
    ensures
        forall|x: NodeRef|
            #![trigger leaves_of(tree, items).contains(x)]
            #![trigger handles(items).contains(x)]
            leaves_of(tree, items).contains(x) <==> handles(items).contains(x) && tree.is_leaf(x),
        handles(items).no_duplicates() ==> leaves_of(tree, items).no_duplicates(),
    decreases items.len(),
{
    let all = handles(items);
    let leaves = leaves_of(tree, items);
    if items.len() > 0 {
        let front = items.drop_last();
        let last = items.last().handle();
        let before = leaves_of(tree, front);
        lemma_leaves_of(tree, front);
        assert(handles(front) =~= all.drop_last());
        assert(all.last() == last);
        assert forall|x: NodeRef| all.contains(x) <==> handles(front).contains(x) || x == last by {
            if all.contains(x) {
                let w = choose|w: int| 0 <= w < all.len() && all[w] == x;
                if w < all.len() - 1 {
                    assert(handles(front)[w] == x);
                }
            }
            if handles(front).contains(x) {
                let w = choose|w: int| 0 <= w < handles(front).len() && handles(front)[w] == x;
                assert(all[w] == x);
            }
            if x == last {
                assert(all[all.len() - 1] == x);
            }
        }
        if tree.is_leaf(last) {
            assert(leaves == before.push(last));
            assert forall|x: NodeRef| leaves.contains(x) <==> before.contains(x) || x == last by {
                if leaves.contains(x) {
                    let w = choose|w: int| 0 <= w < leaves.len() && leaves[w] == x;
                    if w < before.len() {
                        assert(before[w] == x);
                    }
                }
                if before.contains(x) {
                    let w = choose|w: int| 0 <= w < before.len() && before[w] == x;
                    assert(leaves[w] == x);
                }
                if x == last {
                    assert(leaves[before.len() as int] == x);
                }
            }
            if all.no_duplicates() {
                assert(handles(front).no_duplicates()) by {
                    assert forall|i: int, j: int|
                        0 <= i < handles(front).len() && 0 <= j < handles(front).len() && i != j implies handles(
                        front,
                    )[i] != handles(front)[j] by {
                        assert(all[i] != all[j]);
                    }
                }
                assert(!handles(front).contains(last)) by {
                    if handles(front).contains(last) {
                        let w = choose|w: int| 0 <= w < handles(front).len() && handles(front)[w] == last;
                        assert(all[w] == all[all.len() - 1]);
                    }
                }
                assert forall|i: int, j: int|
                    0 <= i < leaves.len() && 0 <= j < leaves.len() && i != j implies leaves[i]
                    != leaves[j] by {
                    if i < before.len() && j < before.len() {
                        assert(before[i] != before[j]);
                    } else if i < before.len() {
                        assert(before.contains(before[i]));
                    } else {
                        assert(before.contains(before[j]));
                    }
                }
            }
        } else {
            assert(leaves == before);
            if all.no_duplicates() {
                assert(handles(front).no_duplicates()) by {
                    assert forall|i: int, j: int|
                        0 <= i < handles(front).len() && 0 <= j < handles(front).len() && i != j implies handles(
                        front,
                    )[i] != handles(front)[j] by {
                        assert(all[i] != all[j]);
                    }
                }
            }
        }
        assert forall|x: NodeRef| leaves.contains(x) <==> all.contains(x) && tree.is_leaf(x) by {
            assert(before.contains(x) <==> handles(front).contains(x) && tree.is_leaf(x));
            assert(all.contains(x) <==> handles(front).contains(x) || x == last);
            if tree.is_leaf(last) {
                assert(leaves.contains(x) <==> before.contains(x) || x == last);
            }
        }
    } else {
        assert forall|x: NodeRef| leaves.contains(x) <==> all.contains(x) && tree.is_leaf(x) by {
            assert(leaves.len() == 0);
            assert(all.len() == 0);
        }
    }
}

/// What the traversal from the leaves up of an indexed tree starts with:
/// the leaves of the subtree below `root`, the last of them first.
pub open spec fn leaves_up_start(tree: TreeView, root: NodeRef) -> LeafView {
    LeafView {
        queue: leaves_of(tree, nodes_below(tree, root)).reverse(),
        seen: leaves_of(tree, nodes_below(tree, root)).to_set(),
        done: Set::empty(),
    }
}

/// The traversal from the leaves up of an indexed tree, run until no node
/// of the queue can be visited, visits every node of the subtree below the
/// root, the root too, each of them once and each after its children, if no
/// node of the subtree has an empty child list.
pub proof fn lemma_indexed_leaves_up(tree: TreeView, root: NodeRef, steps: nat)
    requires
        tree.wf(),
        tree.contains(root),
        forall|x: NodeRef|
            #[trigger] tree.preorder(root).contains(x) && tree.children(x).len() == 0
                ==> tree.is_leaf(x),
        !leaves_up_start(tree, root).after(tree, steps).has_ready(tree),
    ensures
        leaves_up_start(tree, root).run(tree, steps).no_duplicates(),
        leaves_up_start(tree, root).run(tree, steps).contains(root),
        forall|x: NodeRef|
            #[trigger] tree.preorder(root).contains(x) ==> leaves_up_start(tree, root).run(
                tree,
                steps,
            ).contains(x),
        children_first(tree, Set::empty(), leaves_up_start(tree, root).run(tree, steps)),
{
    let items = nodes_below(tree, root);
    let leaves = leaves_of(tree, items);
    let start = leaves_up_start(tree, root);
    let nodes = tree.preorder(root).to_set();
    lemma_traversal_is_preorder(tree, root);
    lemma_leaves_of(tree, items);
    // The queue holds the leaves, each once.
    assert(start.queue.no_duplicates()) by {
        assert forall|i: int, j: int|
            0 <= i < start.queue.len() && 0 <= j < start.queue.len() && i != j implies start.queue[i]
            != start.queue[j] by {
            assert(start.queue[i] == leaves[leaves.len() - 1 - i]);
            assert(start.queue[j] == leaves[leaves.len() - 1 - j]);
        }
    }
    assert(start.seen =~= start.queue.to_set()) by {
        assert forall|x: NodeRef| leaves.contains(x) <==> start.queue.contains(x) by {
            if leaves.contains(x) {
                let w = choose|w: int| 0 <= w < leaves.len() && leaves[w] == x;
                assert(start.queue[leaves.len() - 1 - w] == x);
            }
            if start.queue.contains(x) {
                let w = choose|w: int| 0 <= w < start.queue.len() && start.queue[w] == x;
                assert(leaves[leaves.len() - 1 - w] == x);
            }
        }
    }
    assert forall|x: NodeRef| nodes.contains(x) implies #[trigger] tree.contains(x) by {
        tree.lemma_preorder_below(root, x);
    }
    assert forall|x: NodeRef, k: int|
        nodes.contains(x) && 0 <= k < tree.children(x).len() implies nodes.contains(
        #[trigger] tree.children(x)[k],
    ) by {
        tree.lemma_preorder_closed(root, x, k);
    }
    assert forall|y: NodeRef|
        #[trigger] nodes.contains(y) && tree.children(y).len() == 0 implies start.seen.contains(y) by {
        assert(tree.preorder(root).contains(y));
        assert(handles(items).contains(y));
        assert(leaves.contains(y));
    }
    lemma_leaves_up_reaches_all(tree, start, steps, nodes);
    assert(tree.preorder(root)[0] == root);
    assert(nodes.contains(root));
    assert forall|x: NodeRef| #[trigger] tree.preorder(root).contains(x) implies start.run(
        tree,
        steps,
    ).contains(x) by {
        assert(nodes.contains(x));
    }
}

} // verus!
