//! Trees: an arena of nodes with a root, and an indexed tree on top of it.

pub mod indexed;
pub mod model;

use crate::id::UniqueGenerator;
use crate::index::index_of;
use crate::hash::{data_hash, hash_words, words_bytes, xxh64_digest};
use crate::iterator::{nodes_below, traverse, IterNode};
use crate::node::{children_view, Node, NodeView};
use crate::noderef::NodeRef;
use crate::tree::indexed::{leaves_of, IndexedTree};
use crate::tree::model::TreeView;
use crate::NodeId;
use vstd::prelude::*;

verus! {

/// The greatest of the numbers; zero where there is none.
pub open spec fn greatest(numbers: Seq<usize>) -> usize
    decreases numbers.len(),
{
    if numbers.len() == 0 {
        0
    } else if numbers.last() > greatest(numbers.drop_last()) {
        numbers.last()
    } else {
        greatest(numbers.drop_last())
    }
}

/// For each of the nodes `items`, in order: its horizontal index, its depth,
/// the number of its children and the hash of its data.
pub open spec fn positional_words(tree: TreeView, items: Seq<IterNode>) -> Seq<u64>
    decreases items.len(),
{
    if items.len() == 0 {
        Seq::empty()
    } else {
        positional_words(tree, items.drop_last()) + seq![
            items.last().place().index as u64,
            items.last().place().depth as u64,
            tree.children(items.last().handle()).len() as u64,
            data_hash(tree.node(items.last().handle()).data),
        ]
    }
}

/// A tree. It owns its nodes, which are addressed by handles, and the
/// generator that gives each new node its identity.
#[derive(Debug)]
pub struct Tree<G = crate::IdGenerator> where G: UniqueGenerator<Output = NodeId> {
    // The arena: every node that the tree ever made, by slot.
    pub(crate) nodes: Vec<Node>,
    // Root node of this tree.
    pub(crate) root: Option<NodeRef>,
    // Unique node identity generator.
    pub(crate) node_id_generator: Option<G>,
}

impl<G> View for Tree<G> where G: UniqueGenerator<Output = NodeId> {
    type V = TreeView;

    closed spec fn view(&self) -> TreeView {
        TreeView {
            nodes: self.nodes@.map_values(|n: Node| n@),
            root: self.root,
            has_generator: self.node_id_generator is Some,
        }
    }
}

impl<G> Tree<G> where G: UniqueGenerator<Output = NodeId> {
    /// The tree is well formed.
    pub open spec fn wf(&self) -> bool {
        self@.wf()
    }

    /// An empty tree: no node, no root, no generator.
    pub fn new() -> (tree: Self)
        ensures
            tree.wf(),
            tree@.nodes.len() == 0,
            tree@.root is None,
            !tree@.has_generator,
    {
        Tree { nodes: Vec::new(), root: None, node_id_generator: None }
    }

    /// An empty tree that takes identities from `idgen`.
    pub fn with_generator(idgen: G) -> (tree: Self)
        ensures
            tree.wf(),
            tree@.nodes.len() == 0,
            tree@.root is None,
            tree@.has_generator,
            tree.id_source() == Some(idgen),
    {
        Tree { nodes: Vec::new(), root: None, node_id_generator: Some(idgen) }
    }

    /// Create a tree from a node of another tree: the new tree holds a copy
    /// of the subtree below `node`, under identities from `idgen`.
    pub fn from_node(source: &Tree<G>, node: NodeRef, idgen: G) -> (tree: Self)
        requires
            source.wf(),
            source@.contains(node),
        ensures
            tree.wf(),
            tree@.has_generator,
            tree@.root == Some(NodeRef::of(0)),
            tree@.node(NodeRef::of(0)).parent is None,
            tree@.same_shape(NodeRef::of(0), source@, node),
            source@.hashed() ==> tree@.hashed(),
    {
        let mut tree: Tree<G> = Tree::with_generator(idgen);
        let root = tree.copy_subtree(source, node, None);
        let ghost before = tree@;
        tree.put_root(Some(root));
        proof {
            before.lemma_with_root_wf(Some(root));
            before.lemma_same_shape_frame(tree@, root, source@, node);
            if source@.hashed() {
                assert forall|r: NodeRef| #[trigger] tree@.contains(r) implies tree@.hash_ok(r) by {
                    assert(before.hash_ok(r));
                    before.lemma_hash_ok_frame(tree@, r);
                }
            }
        }
        tree
    }

    // Sets the root.
    pub(crate) fn put_root(&mut self, root: Option<NodeRef>)
        ensures
            final(self)@ == old(self)@.with_root(root),
    {
        self.root = root;
    }

    /// Convert this tree into an [`IndexedTree`].
    pub fn index(self) -> (indexed: IndexedTree<G>)
        requires
            self.wf(),
            self@.root is Some,
        ensures
            indexed.wf(),
            indexed@.tree == self@,
            indexed@.index == index_of(self@, nodes_below(self@, self@.root->0)),
            indexed@.leaves == leaves_of(self@, nodes_below(self@, self@.root->0)),
    {
        IndexedTree::from_tree(self)
    }

    /// Get the maximum depth of the subtree below the root: the greatest
    /// depth that the traversal from the root gives a node.
    pub fn depth(&self) -> (d: usize)
        requires
            self.wf(),
            self@.root is Some,
        ensures
            d == greatest(nodes_below(self@, self@.root->0).map_values(|n: IterNode| n.place().depth)),
    {
        let items = traverse(self, self.root());
        let ghost depths = items@.map_values(|n: IterNode| n.place().depth);
        let mut d: usize = 0;
        let mut k: usize = 0;
        while k < items.len()
            invariant
                k <= items.len(),
                depths == items@.map_values(|n: IterNode| n.place().depth),
                d == greatest(depths.take(k as int)),
            decreases items.len() - k,
        {
            proof {
                assert(depths.take(k + 1).drop_last() == depths.take(k as int));
            }
            if items[k].depth() > d {
                d = items[k].depth();
            }
            k += 1;
        }
        proof {
            assert(depths.take(k as int) == depths);
        }
        d
    }

    /// Get the maximum width of the subtree below the root: the greatest
    /// horizontal index that the traversal from the root gives a node.
    pub fn width(&self) -> (w: usize)
        requires
            self.wf(),
            self@.root is Some,
        ensures
            w == greatest(nodes_below(self@, self@.root->0).map_values(|n: IterNode| n.place().index)),
    {
        let items = traverse(self, self.root());
        let ghost indices = items@.map_values(|n: IterNode| n.place().index);
        let mut w: usize = 0;
        let mut k: usize = 0;
        while k < items.len()
            invariant
                k <= items.len(),
                indices == items@.map_values(|n: IterNode| n.place().index),
                w == greatest(indices.take(k as int)),
            decreases items.len() - k,
        {
            proof {
                assert(indices.take(k + 1).drop_last() == indices.take(k as int));
            }
            if items[k].index() > w {
                w = items[k].index();
            }
            k += 1;
        }
        proof {
            assert(indices.take(k as int) == indices);
        }
        w
    }

    /// Get the positional hash of the subtree below the root: the digest of
    /// horizontal index, depth, number of children and data hash of each
    /// node, in the order of the traversal from the root.
    pub fn xxhash_positional(&self) -> (h: u64)
        requires
            self.wf(),
            self@.root is Some,
        ensures
            h == xxh64_digest(
                words_bytes(positional_words(self@, nodes_below(self@, self@.root->0))),
                0,
            ),
    {
        let items = traverse(self, self.root());
        let mut words: Vec<u64> = Vec::new();
        let mut k: usize = 0;
        while k < items.len()
            invariant
                k <= items.len(),
                forall|j: int| 0 <= j < items@.len() ==> self@.contains((#[trigger] items@[j]).handle()),
                words@ == positional_words(self@, items@.take(k as int)),
            decreases items.len() - k,
        {
            let item = items[k];
            let ghost before = words@;
            proof {
                assert(items@.take(k + 1).drop_last() == items@.take(k as int));
            }
            let node = self.node(item.node());
            words.push(item.index() as u64);
            words.push(item.depth() as u64);
            words.push(node.num_children() as u64);
            words.push(node.data_xxhash());
            proof {
                assert(words@ =~= before + seq![
                    item.place().index as u64,
                    item.place().depth as u64,
                    self@.children(item.handle()).len() as u64,
                    data_hash(self@.node(item.handle()).data),
                ]);
            }
            k += 1;
        }
        proof {
            assert(items@.take(k as int) == items@);
        }
        hash_words(&words)
    }

    /// The number of slots in the arena.
    pub fn size(&self) -> (n: usize)
        ensures
            n == self@.nodes.len(),
    {
        self.nodes.len()
    }

    /// Whether the handle names a node of this tree.
    pub fn contains(&self, r: NodeRef) -> (b: bool)
        ensures
            b == self@.contains(r),
    {
        r.slot < self.nodes.len()
    }

    /// The node that the handle names.
    pub fn node(&self, r: NodeRef) -> (node: &Node)
        requires
            self@.contains(r),
        ensures
            node@ == self@.node(r),
    {
        &self.nodes[r.slot]
    }

    /// The child of a node at a given index.
    pub fn child(&self, r: NodeRef, index: usize) -> (c: NodeRef)
        requires
            self@.contains(r),
            index < self@.children(r).len(),
        ensures
            c == self@.children(r)[index as int],
    {
        match self.node(r).children() {
            Some(children) => children[index],
            None => r,
        }
    }

    /// The handles of the children of a node, in sibling order.
    pub fn children_of(&self, r: NodeRef) -> (children: Vec<NodeRef>)
        requires
            self@.contains(r),
        ensures
            children@ == self@.children(r),
    {
        let mut out: Vec<NodeRef> = Vec::new();
        match self.node(r).children() {
            Some(children) => {
                let mut k: usize = 0;
                while k < children.len()
                    invariant
                        k <= children.len(),
                        out@ == children@.take(k as int),
                    decreases children.len() - k,
                {
                    out.push(children[k]);
                    proof {
                        assert(out@ =~= children@.take(k + 1));
                    }
                    k += 1;
                }
                proof {
                    assert(children@.take(k as int) == children@);
                }
            },
            None => {},
        }
        out
    }

    /// Whether the node has a child list.
    pub fn has_children(&self, r: NodeRef) -> (b: bool)
        requires
            self@.contains(r),
        ensures
            b == !self@.is_leaf(r),
    {
        self.node(r).children().is_some()
    }

    /// The subtree hash that the root caches, if the tree has a root.
    pub fn root_hash(&self) -> (h: Option<u64>)
        ensures
            h == self@.root_hash(),
    {
        match self.root {
            Some(r) => if r.slot < self.nodes.len() {
                Some(self.nodes[r.slot].get_subtree_hash())
            } else {
                None
            },
            None => None,
        }
    }

    /// The root of the tree, if it has one.
    pub fn try_root(&self) -> (r: Option<NodeRef>)
        ensures
            r == self@.root,
    {
        self.root
    }

    /// The root of the tree.
    pub fn root(&self) -> (r: NodeRef)
        requires
            self@.root is Some,
        ensures
            Some(r) == self@.root,
    {
        match self.root {
            Some(r) => r,
            None => NodeRef::new(0),
        }
    }

    /// The generator that the tree takes identities from, if it has one.
    pub closed spec fn id_source(&self) -> Option<G> {
        self.node_id_generator
    }

    /// The generator of identities.
    pub fn generator(&self) -> (generator: &G)
        requires
            self@.has_generator,
        ensures
            self.id_source() == Some(*generator),
    {
        match &self.node_id_generator {
            Some(generator) => generator,
            None => vstd::pervasive::unreached(),
        }
    }

    /// Whether the tree has a generator of identities.
    pub fn has_generator(&self) -> (b: bool)
        ensures
            b == self@.has_generator,
    {
        self.node_id_generator.is_some()
    }

    /// Allocate a new node identity: the tree's generator hands it out. The
    /// nodes of the tree stay as they are.
    pub fn generate_id(&mut self) -> (id: NodeId)
        requires
            old(self)@.has_generator,
        ensures
            final(self)@ == old(self)@,
            old(self).id_source() is Some,
            final(self).id_source() is Some,
            old(self).id_source()->0.issues(id, &final(self).id_source()->0),
    {
        match &mut self.node_id_generator {
            Some(generator) => generator.generate(),
            None => 0,
        }
    }

    // Puts a node into the next free slot of the arena.
    pub(crate) fn push_node(&mut self, node: Node) -> (r: NodeRef)
        ensures
            r.at() == old(self)@.nodes.len(),
            r == NodeRef::of(old(self)@.nodes.len() as int),
            final(self)@.nodes.len() <= usize::MAX,
            final(self)@ == (TreeView { nodes: old(self)@.nodes.push(node@), ..old(self)@ }),
    {
        let r = NodeRef::new(self.nodes.len());
        self.nodes.push(node);
        let _ = self.nodes.len();
        proof {
            assert(self@.nodes =~= old(self)@.nodes.push(node@));
        }
        r
    }

    // Sets the parent of a node.
    pub(crate) fn put_parent(&mut self, r: NodeRef, parent: Option<NodeRef>)
        requires
            old(self)@.contains(r),
        ensures
            final(self)@ == (TreeView {
                nodes: old(self)@.nodes.update(r.at(), NodeView { parent, ..old(self)@.node(r) }),
                ..old(self)@
            }),
    {
        match parent {
            Some(p) => self.nodes[r.slot].set_parent(p),
            None => self.nodes[r.slot].clear_parent(),
        }
        proof {
            assert(self@.nodes =~= old(self)@.nodes.update(
                r.at(),
                NodeView { parent, ..old(self)@.node(r) },
            ));
        }
    }

    // Sets the child list of a node.
    pub(crate) fn put_children(&mut self, r: NodeRef, children: Option<Vec<NodeRef>>)
        requires
            old(self)@.contains(r),
        ensures
            final(self)@ == (TreeView {
                nodes: old(self)@.nodes.update(
                    r.at(),
                    NodeView { children: children_view(children), ..old(self)@.node(r) },
                ),
                ..old(self)@
            }),
    {
        let ghost after = NodeView { children: children_view(children), ..old(self)@.node(r) };
        self.nodes[r.slot].set_children(children);
        proof {
            assert(self@.nodes =~= old(self)@.nodes.update(r.at(), after));
        }
    }

    // Sets the cached subtree hash of a node.
    pub(crate) fn put_hash(&mut self, r: NodeRef, subtree_hash: u64)
        requires
            old(self)@.contains(r),
        ensures
            final(self)@ == (TreeView {
                nodes: old(self)@.nodes.update(
                    r.at(),
                    NodeView { subtree_hash, ..old(self)@.node(r) },
                ),
                ..old(self)@
            }),
    {
        self.nodes[r.slot].set_subtree_hash(subtree_hash);
        proof {
            assert(self@.nodes =~= old(self)@.nodes.update(
                r.at(),
                NodeView { subtree_hash, ..old(self)@.node(r) },
            ));
        }
    }

    // Sets the data of a node.
    pub(crate) fn put_data(&mut self, r: NodeRef, data: Vec<u8>)
        requires
            old(self)@.contains(r),
        ensures
            final(self)@ == (TreeView {
                nodes: old(self)@.nodes.update(r.at(), NodeView { data: data@, ..old(self)@.node(r) }),
                ..old(self)@
            }),
    {
        let ghost after = NodeView { data: data@, ..old(self)@.node(r) };
        self.nodes[r.slot].set_data(data);
        proof {
            assert(self@.nodes =~= old(self)@.nodes.update(r.at(), after));
        }
    }

    /// Create a new node from the provided data. The node gets a new
    /// identity and the next free slot; it is not yet part of the tree below
    /// the root. Without a generator no node is made.
    pub fn create_node(&mut self, data: Vec<u8>) -> (made: Option<NodeRef>)
        requires
            old(self).wf(),
        ensures
            final(self).wf(),
            made is Some <==> old(self)@.has_generator,
            match made {
                Some(r) => {
                    &&& r.at() == old(self)@.nodes.len()
                    &&& final(self)@ == (TreeView {
                        nodes: old(self)@.nodes.push(final(self)@.node(r)),
                        ..old(self)@
                    })
                    &&& final(self)@.node(r) == (NodeView {
                        id: final(self)@.node(r).id,
                        data: data@,
                        parent: None,
                        children: None,
                        position: None,
                        subtree_hash: 0,
                    })
                },
                None => final(self)@ == old(self)@,
            },
    {
        if self.node_id_generator.is_none() {
            return None;
        }
        let id: NodeId = self.generate_id();
        let r = self.push_node(Node::new(id, data, None));
        proof {
            assert(self@.node(r).child_refs() =~= Seq::<NodeRef>::empty());
            assert forall|x: NodeRef| #[trigger] self@.contains(x) implies self@.node_wf(x) by {
                if x.at() < old(self)@.nodes.len() {
                    assert(old(self)@.contains(x));
                    assert(old(self)@.node_wf(x));
                    assert(self@.node(x) == old(self)@.node(x));
                }
            }
        }
        Some(r)
    }

    // Inserts a handle into the child list of a node.
    pub(crate) fn list_insert(&mut self, r: NodeRef, index: usize, child: NodeRef) -> (done: Option<()>)
        requires
            old(self)@.contains(r),
        ensures
            done is Some <==> index <= old(self)@.children(r).len(),
            final(self)@ == if done is Some {
                TreeView {
                    nodes: old(self)@.nodes.update(
                        r.at(),
                        NodeView {
                            children: Some(old(self)@.children(r).insert(index as int, child)),
                            ..old(self)@.node(r)
                        },
                    ),
                    ..old(self)@
                }
            } else {
                old(self)@
            },
    {
        let done = self.nodes[r.slot].insert_child(child, index);
        proof {
            assert(self@.nodes =~= old(self)@.nodes.update(r.at(), self.nodes@[r.at()]@));
            if done is None {
                assert(self@.nodes =~= old(self)@.nodes);
            }
        }
        done
    }

    // Removes the handle at `index` from the child list of a node.
    pub(crate) fn list_remove(&mut self, r: NodeRef, index: usize) -> (removed: Option<NodeRef>)
        requires
            old(self)@.contains(r),
        ensures
            removed is Some <==> index < old(self)@.children(r).len(),
            removed is Some ==> removed == Some(old(self)@.children(r)[index as int]),
            final(self)@ == if removed is Some {
                TreeView {
                    nodes: old(self)@.nodes.update(
                        r.at(),
                        NodeView {
                            children: Some(old(self)@.children(r).remove(index as int)),
                            ..old(self)@.node(r)
                        },
                    ),
                    ..old(self)@
                }
            } else {
                old(self)@
            },
    {
        let removed = self.nodes[r.slot].remove_child_index(index);
        proof {
            assert(self@.nodes =~= old(self)@.nodes.update(r.at(), self.nodes@[r.at()]@));
            if removed is None {
                assert(self@.nodes =~= old(self)@.nodes);
            }
        }
        removed
    }

    // Writes a handle over the one at `index` in the child list of a node.
    pub(crate) fn list_replace(&mut self, r: NodeRef, index: usize, child: NodeRef)
        requires
            old(self)@.contains(r),
            index < old(self)@.children(r).len(),
        ensures
            final(self)@ == (TreeView {
                nodes: old(self)@.nodes.update(
                    r.at(),
                    NodeView {
                        children: Some(old(self)@.children(r).update(index as int, child)),
                        ..old(self)@.node(r)
                    },
                ),
                ..old(self)@
            }),
    {
        self.nodes[r.slot].replace_child(child, index);
        proof {
            assert(self@.nodes =~= old(self)@.nodes.update(r.at(), self.nodes@[r.at()]@));
        }
    }

    // Takes the child list out of a node.
    pub(crate) fn list_take(&mut self, r: NodeRef) -> (children: Option<Vec<NodeRef>>)
        requires
            old(self)@.contains(r),
        ensures
            children_view(children) == old(self)@.node(r).children,
            final(self)@ == (TreeView {
                nodes: old(self)@.nodes.update(
                    r.at(),
                    NodeView { children: None, ..old(self)@.node(r) },
                ),
                ..old(self)@
            }),
    {
        let children = self.nodes[r.slot].take_children();
        proof {
            assert(self@.nodes =~= old(self)@.nodes.update(r.at(), self.nodes@[r.at()]@));
        }
        children
    }

    /// Insert a child into a parent at the given index. The child must be a
    /// node of this tree without a parent, made after `parent`; the index
    /// must not lie behind the end of the child list. Otherwise nothing is
    /// changed and `None` is returned.
    pub fn insert_child(&mut self, parent: NodeRef, index: usize, new: NodeRef) -> (done: Option<()>)
        requires
            old(self).wf(),
        ensures
            final(self).wf(),
            done is Some <==> old(self)@.can_adopt(parent, new) && index <= old(self)@.children(
                parent,
            ).len(),
            final(self)@ == if done is Some {
                old(self)@.adopt(parent, index as int, new)
            } else {
                old(self)@
            },
    {
        if !self.contains(parent) || !self.contains(new) {
            return None;
        }
        if parent.slot >= new.slot || self.node(new).parent().is_some() {
            return None;
        }
        let done = self.list_insert(parent, index, new);
        if done.is_some() {
            self.put_parent(new, Some(parent));
            proof {
                old(self)@.lemma_adopt_wf(parent, index as int, new);
            }
        }
        done
    }

    /// Remove a child from a node at the given index. The removed node
    /// stays in the arena, without a parent, and its handle is returned.
    /// Where there is no such child nothing is changed and `None` is
    /// returned.
    pub fn remove_child(&mut self, parent: NodeRef, index: usize) -> (removed: Option<NodeRef>)
        requires
            old(self).wf(),
        ensures
            final(self).wf(),
            removed is Some <==> old(self)@.contains(parent) && index < old(self)@.children(
                parent,
            ).len(),
            removed is Some ==> removed == Some(old(self)@.children(parent)[index as int]),
            final(self)@ == if removed is Some {
                old(self)@.disown(parent, index as int)
            } else {
                old(self)@
            },
    {
        if !self.contains(parent) {
            return None;
        }
        let removed = self.list_remove(parent, index);
        match removed {
            Some(child) => {
                proof {
                    assert(old(self)@.node_wf(parent));
                    assert(old(self)@.children(parent)[index as int] == child);
                }
                self.put_parent(child, None);
                proof {
                    old(self)@.lemma_disown_wf(parent, index as int);
                }
            },
            None => {},
        }
        removed
    }

    /// Remove the node from the child list of its parent. The node stays in
    /// the arena, without a parent. A node that has no parent, or that its
    /// parent does not list, is left as it is.
    pub fn remove_node(&mut self, node: NodeRef)
        requires
            old(self).wf(),
        ensures
            final(self).wf(),
            final(self)@ == match old(self)@.listed_at(node) {
                Some(index) => old(self)@.disown(old(self)@.node(node).parent->0, index),
                None => old(self)@,
            },
    {
        if !self.contains(node) {
            return ;
        }
        let parent = match self.node(node).parent() {
            Some(p) => p,
            None => {
                return ;
            },
        };
        proof {
            assert(self@.node_wf(node));
        }
        let mut found: Option<usize> = None;
        match self.node(parent).children() {
            Some(children) => {
                let mut k: usize = 0;
                while k < children.len()
                    invariant_except_break
                        k <= children.len(),
                        forall|j: int| 0 <= j < k ==> children@[j] != node,
                        found is None,
                    ensures
                        match found {
                            Some(at) => at < children.len() && children@[at as int] == node,
                            None => forall|j: int| 0 <= j < children.len() ==> children@[j] != node,
                        },
                    decreases children.len() - k,
                {
                    if children[k] == node {
                        found = Some(k);
                        break ;
                    }
                    k += 1;
                }
            },
            None => {},
        }
        match found {
            Some(index) => {
                proof {
                    assert(self@.contains(parent));
                    assert(self@.node_wf(parent));
                    assert(self@.children(parent)[index as int] == node);
                    assert(self@.children(parent).contains(node));
                    assert(self@.children(parent).index_of(node) == index as int);
                }
                let _ = self.remove_child(parent, index);
            },
            None => {
                proof {
                    assert(!self@.children(parent).contains(node));
                }
            },
        }
    }

    /// Replace the data of `dest` with a copy of the data of the node `from`
    /// of `source`. The node keeps its identity, its parent and its children.
    /// Where one of the handles names no node nothing is changed.
    pub fn replace_node(&mut self, dest: NodeRef, source: &Tree<G>, from: NodeRef)
        requires
            old(self).wf(),
        ensures
            final(self).wf(),
            final(self)@ == if old(self)@.contains(dest) && source@.contains(from) {
                old(self)@.with_data(dest, source@.node(from).data)
            } else {
                old(self)@
            },
    {
        if !self.contains(dest) || !source.contains(from) {
            return ;
        }
        let data: Vec<u8> = source.node(from).data().clone();
        self.put_data(dest, data);
        proof {
            old(self)@.lemma_with_data_wf(dest, source@.node(from).data);
        }
    }

    /// Remove all children from the specified parent node. The parent is
    /// left without a child list; the former children stay in the arena,
    /// without a parent. With a handle that names no node nothing is changed.
    pub fn remove_children(&mut self, parent: NodeRef)
        requires
            old(self).wf(),
        ensures
            final(self).wf(),
            final(self)@ == if old(self)@.contains(parent) {
                old(self)@.abandon(parent)
            } else {
                old(self)@
            },
    {
        if !self.contains(parent) {
            return ;
        }
        proof {
            assert(self@.node_wf(parent));
            old(self)@.lemma_abandon_wf(parent);
        }
        let taken = self.list_take(parent);
        let ghost bare = self@;
        match taken {
            Some(children) => {
                let mut k: usize = 0;
                while k < children.len()
                    invariant
                        k <= children.len(),
                        children@ == old(self)@.children(parent),
                        forall|j: int|
                            0 <= j < children.len() ==> bare.contains(#[trigger] children@[j]),
                        self@ == bare.orphan_all(children@.take(k as int)),
                    decreases children.len() - k,
                {
                    proof {
                        bare.lemma_orphan_all(children@.take(k as int));
                        assert(children@.take(k + 1).drop_last() == children@.take(k as int));
                        assert(bare.contains(children@[k as int]));
                    }
                    self.put_parent(children[k], None);
                    k += 1;
                }
                proof {
                    assert(children@.take(k as int) == children@);
                }
            },
            None => {
                proof {
                    assert(old(self)@.children(parent) == Seq::<NodeRef>::empty());
                }
            },
        }
    }

    /// The cached subtree hashes of the children of a node, in sibling order.
    pub fn child_hashes(&self, r: NodeRef) -> (hashes: Vec<u64>)
        requires
            self.wf(),
            self@.contains(r),
        ensures
            hashes@ == self@.child_hashes(r),
    {
        let mut hashes: Vec<u64> = Vec::new();
        proof {
            assert(self@.node_wf(r));
        }
        match self.node(r).children() {
            Some(children) => {
                let mut k: usize = 0;
                while k < children.len()
                    invariant
                        k <= children.len(),
                        children@ == self@.children(r),
                        self@.node_wf(r),
                        hashes@ == self@.child_hashes(r).take(k as int),
                    decreases children.len() - k,
                {
                    let child = children[k];
                    proof {
                        assert(self@.children(r)[k as int] == child);
                    }
                    hashes.push(self.node(child).get_subtree_hash());
                    proof {
                        assert(hashes@ =~= self@.child_hashes(r).take(k + 1));
                    }
                    k += 1;
                }
                proof {
                    assert(self@.child_hashes(r).take(k as int) == self@.child_hashes(r));
                }
            },
            None => {
                proof {
                    assert(hashes@ =~= self@.child_hashes(r));
                }
            },
        }
        hashes
    }

    /// Makes the cached subtree hash of `node` anew from its data and the
    /// cached hashes of its children, and then does the same for every node
    /// above it, up to the top of its tree. With a handle that names no node
    /// nothing is changed.
    pub fn update_subtree_hash(&mut self, node: NodeRef)
        requires
            old(self).wf(),
        ensures
            final(self).wf(),
            if old(self)@.contains(node) {
                old(self)@.rehashed_from(final(self)@, node)
            } else {
                final(self)@ == old(self)@
            },
            forall|r: NodeRef| #[trigger]
                old(self)@.contains(r) && old(self)@.hash_ok(r) ==> final(self)@.hash_ok(r),
    {
        if !self.contains(node) {
            return ;
        }
        let mut cur = node;
        loop
            invariant_except_break
                self@.wf(),
                self@.same_frame(old(self)@),
                old(self)@.wf(),
                self@.contains(cur),
                old(self)@.is_above(cur, node),
                forall|r: NodeRef| #[trigger]
                    old(self)@.contains(r) ==> self@.node(r) == (NodeView {
                        subtree_hash: self@.hash(r),
                        ..old(self)@.node(r)
                    }),
                forall|r: NodeRef| #[trigger]
                    old(self)@.contains(r) && (r.at() <= cur.at() || !old(self)@.is_above(r, node))
                        ==> self@.hash(r) == old(self)@.hash(r),
                forall|r: NodeRef| #[trigger]
                    old(self)@.contains(r) && old(self)@.is_above(r, node) ==> (r.at() > cur.at()
                        && self@.hash_ok(r)) || old(self)@.is_above(r, cur),
            ensures
                self@.wf(),
                old(self)@.rehashed_from(self@, node),
            decreases cur.at(),
        {
            let ghost before = self@;
            let hashes = self.child_hashes(cur);
            let own = self.node(cur).data_xxhash();
            let h = crate::hash::hash_subtree(&hashes, own);
            self.put_hash(cur, h);
            proof {
                before.lemma_with_hash_wf(cur, h);
                assert(before.node_wf(cur));
                assert(self@.child_hashes(cur) =~= before.child_hashes(cur));
                assert(self@.hash_ok(cur));
                assert forall|r: NodeRef| #[trigger]
                    old(self)@.contains(r) && old(self)@.is_above(r, node) && r.at() > cur.at()
                    && before.hash_ok(r) implies self@.hash_ok(r) by {
                    assert(before.contains(r));
                    assert(before.node_wf(r));
                    assert(self@.child_hashes(r) =~= before.child_hashes(r));
                }
            }
            match self.node(cur).parent() {
                Some(parent) => {
                    proof {
                        assert(old(self)@.contains(cur));
                        assert(old(self)@.node_wf(cur));
                        assert(old(self)@.node(cur).parent == Some(parent));
                        old(self)@.lemma_above_parent(cur, parent, node);
                    }
                    cur = parent;
                },
                None => {
                    proof {
                        assert(old(self)@.contains(cur));
                        assert(old(self)@.node(cur).parent is None);
                        assert forall|r: NodeRef| #[trigger]
                            old(self)@.contains(r) && old(self)@.is_above(r, node) implies self@.hash_ok(
                            r,
                        ) by {
                            if old(self)@.is_above(r, cur) {
                                assert(r == cur);
                            } else {
                                assert(before.hash_ok(r));
                            }
                        }
                        assert forall|r: NodeRef| #[trigger]
                            old(self)@.contains(r) && !old(self)@.is_above(r, node) implies self@.hash(r)
                            == old(self)@.hash(r) by {
                            assert(before.hash(r) == old(self)@.hash(r));
                        }
                        assert forall|r: NodeRef| #[trigger] old(self)@.contains(r) implies self@.node(r)
                            == (NodeView { subtree_hash: self@.hash(r), ..old(self)@.node(r) }) by {
                            assert(before.node(r) == (NodeView {
                                subtree_hash: before.hash(r),
                                ..old(self)@.node(r)
                            }));
                        }
                    }
                    break ;
                },
            }
        }
        proof {
            assert forall|r: NodeRef| #[trigger]
                old(self)@.contains(r) && old(self)@.hash_ok(r) implies self@.hash_ok(r) by {
                old(self)@.lemma_rehash_keeps(self@, node, r);
            }
        }
    }

    // Copies the subtree below `from` in `source` into fresh slots of this
    // tree, root first, each node under a new identity, and hangs the copy
    // of the root on `parent`. No child list is told of it.
    pub(crate) fn copy_subtree(&mut self, source: &Tree<G>, from: NodeRef, parent: Option<NodeRef>) -> (copy:
        NodeRef)
        requires
            old(self).wf(),
            source.wf(),
            source@.contains(from),
            old(self)@.has_generator,
            match parent {
                Some(p) => old(self)@.contains(p),
                None => true,
            },
        ensures
            final(self).wf(),
            copy == NodeRef::of(old(self)@.nodes.len() as int),
            final(self)@.nodes.len() > old(self)@.nodes.len(),
            final(self)@.root == old(self)@.root,
            final(self)@.has_generator,
            final(self)@.agrees_below(old(self)@, old(self)@.nodes.len() as int),
            final(self)@.node(copy).parent == parent,
            final(self)@.same_shape(copy, source@, from),
            source@.hashed() ==> forall|r: NodeRef|
                old(self)@.nodes.len() <= r.at() < final(self)@.nodes.len()
                    ==> #[trigger] final(self)@.hash_ok(r),
        decreases source@.nodes.len() - from.at(),
    {
        let id: NodeId = self.generate_id();
        let copied = source.node(from);
        let mut node = Node::new(id, copied.data().clone(), None);
        node.set_subtree_hash(copied.get_subtree_hash());
        match copied.get_position() {
            Some(position) => node.set_position(*position),
            None => {},
        }
        match parent {
            Some(p) => node.set_parent(p),
            None => {},
        }
        let ghost start = self@;
        let copy = self.push_node(node);
        let ghost bare = self@;
        proof {
            assert(bare.agrees_below(start, start.nodes.len() as int));
            assert(source@.node_wf(from));
            assert(bare.node(copy).child_refs() =~= Seq::<NodeRef>::empty());
            assert forall|x: NodeRef| #[trigger] bare.contains(x) implies bare.node_wf(x) by {
                if x != copy {
                    assert(start.contains(x));
                    assert(start.node_wf(x));
                    assert(bare.node(x) == start.node(x));
                }
            }
        }
        match copied.children() {
            Some(list) => {
                let mut kids: Vec<NodeRef> = Vec::new();
                let mut k: usize = 0;
                while k < list.len()
                    invariant
                        k <= list.len(),
                        self.wf(),
                        source.wf(),
                        source@.contains(from),
                        source@.node_wf(from),
                        list@ == source@.children(from),
                        self@.has_generator,
                        self@.root == start.root,
                        self@.nodes.len() > start.nodes.len(),
                        copy == NodeRef::of(start.nodes.len() as int),
                        copy.at() == start.nodes.len(),
                        self@.agrees_below(start, start.nodes.len() as int),
                        self@.node(copy) == bare.node(copy),
                        kids.len() == k,
                        forall|j: int|
                            0 <= j < k ==> {
                                let c = #[trigger] kids@[j];
                                &&& copy.at() < c.at() < self@.nodes.len()
                                &&& self@.node(c).parent == Some(copy)
                                &&& self@.same_shape(c, source@, list@[j])
                            },
                        forall|i: int, j: int| 0 <= i < j < k ==> kids@[i].at() < kids@[j].at(),
                        source@.hashed() ==> forall|r: NodeRef|
                            start.nodes.len() < r.at() < self@.nodes.len() ==> #[trigger] self@.hash_ok(r),
                    decreases list.len() - k,
                {
                    let ghost before = self@;
                    let ghost before_kids = kids@;
                    proof {
                        assert(source@.children(from)[k as int] == list@[k as int]);
                    }
                    let c = self.copy_subtree(source, list[k], Some(copy));
                    kids.push(c);
                    proof {
                        let after = self@;
                        assert forall|j: int| 0 <= j < k + 1 implies {
                            let x = #[trigger] kids@[j];
                            &&& copy.at() < x.at() < after.nodes.len()
                            &&& after.node(x).parent == Some(copy)
                            &&& after.same_shape(x, source@, list@[j])
                        } by {
                            if j < k {
                                let x = before_kids[j];
                                assert(kids@[j] == x);
                                assert(before.contains(x));
                                before.lemma_same_shape_frame(after, x, source@, list@[j]);
                            }
                        }
                        assert forall|i: int, j: int| 0 <= i < j < k + 1 implies kids@[i].at() < kids@[
                        j].at() by {
                            assert(kids@[i] == before_kids[i]);
                            if j < k {
                                assert(kids@[j] == before_kids[j]);
                            }
                        }
                        if source@.hashed() {
                            assert forall|r: NodeRef|
                                start.nodes.len() < r.at() < after.nodes.len() implies #[trigger] after.hash_ok(
                                r,
                            ) by {
                                if r.at() < before.nodes.len() {
                                    assert(before.contains(r));
                                    assert(before.node_wf(r));
                                    assert(before.hash_ok(r));
                                    before.lemma_hash_ok_frame(after, r);
                                }
                            }
                        }
                    }
                    k += 1;
                }
                let ghost before = self@;
                self.put_children(copy, Some(kids));
                proof {
                    let after = self@;
                    assert(after.children(copy) == kids@);
                    assert forall|x: NodeRef| #[trigger] after.contains(x) implies after.node_wf(x) by {
                        assert(before.contains(x));
                        assert(before.node_wf(x));
                        if x != copy {
                            assert(after.children(x) == before.children(x));
                            assert forall|j: int| 0 <= j < after.children(x).len() implies {
                                let c = #[trigger] after.children(x)[j];
                                x.at() < c.at() < after.nodes.len() && after.node(c).parent == Some(x)
                            } by {
                                let c = before.children(x)[j];
                                assert(before.node(c).parent == Some(x));
                            }
                        }
                    }
                    assert forall|j: int| 0 <= j < after.children(copy).len() implies copy.at() < (
                    #[trigger] after.children(copy)[j]).at() < after.nodes.len() && after.same_shape(
                        after.children(copy)[j],
                        source@,
                        source@.children(from)[j],
                    ) by {
                        let x = kids@[j];
                        assert(before.contains(x));
                        before.lemma_same_shape_frame(after, x, source@, list@[j]);
                    }
                    assert(after.same_shape(copy, source@, from));
                    assert forall|r: NodeRef| r.at() < start.nodes.len() implies #[trigger] after.node(r)
                        == start.node(r) by {
                        assert(before.node(r) == start.node(r));
                    }
                    if source@.hashed() {
                        assert forall|r: NodeRef|
                            start.nodes.len() <= r.at() < after.nodes.len() implies #[trigger] after.hash_ok(
                            r,
                        ) by {
                            if r == copy {
                                assert(source@.hash_ok(from));
                                after.lemma_copy_hash_ok(copy, source@, from);
                            } else {
                                assert(before.contains(r));
                                assert(before.node_wf(r));
                                assert(before.hash_ok(r));
                                before.lemma_hash_ok_frame(after, r);
                            }
                        }
                    }
                }
            },
            None => {
                proof {
                    assert(self@.same_shape(copy, source@, from));
                    if source@.hashed() {
                        assert(source@.hash_ok(from));
                        self@.lemma_copy_hash_ok(copy, source@, from);
                    }
                }
            },
        }
        copy
    }

    /// Insert a copy of a subtree of `source` as a child of the specified
    /// parent at a given child index. Every node of the copy gets a new
    /// identity. Where a handle names no node, or the index lies behind the
    /// end of the child list, nothing is changed and `None` is returned.
    pub fn insert_subtree(&mut self, parent: NodeRef, index: usize, source: &Tree<G>, subtree: NodeRef) -> (done:
        Option<()>)
        requires
            old(self).wf(),
            source.wf(),
            old(self)@.has_generator,
        ensures
            final(self).wf(),
            done is Some <==> old(self)@.contains(parent) && source@.contains(subtree) && index
                <= old(self)@.children(parent).len(),
            if done is Some {
                old(self)@.grafted(final(self)@, parent, index as int, source@, subtree)
            } else {
                final(self)@ == old(self)@
            },
            old(self)@.hashed_but(parent) && source@.hashed() ==> final(self)@.hashed_but(parent),
    {
        if !self.contains(parent) || !source.contains(subtree) {
            return None;
        }
        if index > self.node(parent).num_children() {
            return None;
        }
        let copy = self.copy_subtree(source, subtree, Some(parent));
        let ghost before = self@;
        let done = self.list_insert(parent, index, copy);
        proof {
            let start = old(self)@;
            let after = self@;
            assert(start.contains(parent));
            assert(start.node_wf(parent));
            assert(before.node(parent) == start.node(parent));
            let list = start.children(parent);
            let new_list = list.insert(index as int, copy);
            assert(after.children(parent) == new_list);
            assert forall|x: NodeRef| #[trigger] after.contains(x) implies after.node_wf(x) by {
                assert(before.contains(x));
                assert(before.node_wf(x));
                if x == parent {
                    assert forall|k: int| 0 <= k < new_list.len() implies {
                        let c = #[trigger] new_list[k];
                        x.at() < c.at() < after.nodes.len() && after.node(c).parent == Some(x)
                    } by {
                        if k < index {
                            assert(new_list[k] == list[k]);
                            assert(before.children(parent)[k] == list[k]);
                        } else if k > index {
                            assert(new_list[k] == list[k - 1]);
                            assert(before.children(parent)[k - 1] == list[k - 1]);
                        }
                    }
                    assert forall|j: int, k: int| 0 <= j < k < new_list.len() implies new_list[j]
                        != new_list[k] by {
                        let a = if j < index { j } else { j - 1 };
                        let b = if k < index { k } else { k - 1 };
                        if j != index {
                            assert(new_list[j] == list[a]);
                            assert(start.contains(list[a]));
                        }
                        if k != index {
                            assert(new_list[k] == list[b]);
                            assert(start.contains(list[b]));
                        }
                    }
                } else {
                    assert(after.children(x) == before.children(x));
                    assert forall|k: int| 0 <= k < after.children(x).len() implies {
                        let c = #[trigger] after.children(x)[k];
                        x.at() < c.at() < after.nodes.len() && after.node(c).parent == Some(x)
                    } by {
                        let c = before.children(x)[k];
                        assert(before.node(c).parent == Some(x));
                    }
                }
            }
            assert(before.contains(copy));
            before.lemma_same_shape_frame(after, copy, source@, subtree);
            assert forall|r: NodeRef| #[trigger] start.contains(r) implies after.node(r) == if r
                == parent {
                NodeView { children: Some(list.insert(index as int, copy)), ..start.node(r) }
            } else {
                start.node(r)
            } by {
                assert(before.node(r) == start.node(r));
            }
            if start.hashed_but(parent) && source@.hashed() {
                assert forall|x: NodeRef| #[trigger] after.contains(x) && x != parent implies after.hash_ok(
                    x,
                ) by {
                    assert(before.contains(x));
                    assert(before.node_wf(x));
                    if x.at() < start.nodes.len() {
                        assert(start.contains(x));
                        assert(start.node_wf(x));
                        assert(before.node(x) == start.node(x));
                        assert forall|k: int| 0 <= k < start.children(x).len() implies before.hash(
                            #[trigger] start.children(x)[k],
                        ) == start.hash(start.children(x)[k]) by {
                            assert(before.node(start.children(x)[k]) == start.node(
                                start.children(x)[k],
                            ));
                        }
                        start.lemma_hash_ok_frame(before, x);
                    }
                    assert(before.hash_ok(x));
                    before.lemma_hash_ok_frame(after, x);
                }
            }
        }
        done
    }

    /// Replace a child in a node with a copy of a subtree of `source` at
    /// the given index. Every node of the copy gets a new identity; the former
    /// child stays in the arena, without a parent. Where a handle names no
    /// node, or the node has no child at the index, nothing is changed.
    pub fn replace_child(&mut self, parent: NodeRef, index: usize, source: &Tree<G>, new: NodeRef)
        requires
            old(self).wf(),
            source.wf(),
            old(self)@.has_generator,
        ensures
            final(self).wf(),
            if old(self)@.contains(parent) && source@.contains(new) && index < old(self)@.children(
                parent,
            ).len() {
                old(self)@.regrafted(final(self)@, parent, index as int, source@, new)
            } else {
                final(self)@ == old(self)@
            },
            old(self)@.hashed_but(parent) && source@.hashed() ==> final(self)@.hashed_but(parent),
    {
        if !self.contains(parent) || !source.contains(new) {
            return ;
        }
        if index >= self.node(parent).num_children() {
            return ;
        }
        proof {
            assert(self@.node_wf(parent));
        }
        let former = match self.node(parent).children() {
            Some(children) => children[index],
            None => parent,
        };
        let copy = self.copy_subtree(source, new, Some(parent));
        let ghost before = self@;
        proof {
            assert(old(self)@.contains(parent));
            assert(before.node(parent) == old(self)@.node(parent));
            assert(old(self)@.children(parent)[index as int] == former);
            assert(old(self)@.contains(former));
            assert(before.node(former) == old(self)@.node(former));
        }
        self.list_replace(parent, index, copy);
        self.put_parent(former, None);
        proof {
            let start = old(self)@;
            let after = self@;
            let list = start.children(parent);
            let new_list = list.update(index as int, copy);
            assert(start.node_wf(former));
            assert(after.children(parent) == new_list);
            assert forall|x: NodeRef| #[trigger] after.contains(x) implies after.node_wf(x) by {
                assert(before.contains(x));
                assert(before.node_wf(x));
                if x == parent {
                    assert forall|k: int| 0 <= k < new_list.len() implies {
                        let c = #[trigger] new_list[k];
                        x.at() < c.at() < after.nodes.len() && after.node(c).parent == Some(x)
                    } by {
                        if k != index {
                            assert(new_list[k] == list[k]);
                            assert(before.children(parent)[k] == list[k]);
                        }
                    }
                    assert forall|j: int, k: int| 0 <= j < k < new_list.len() implies new_list[j]
                        != new_list[k] by {
                        if j != index {
                            assert(new_list[j] == list[j]);
                            assert(start.contains(list[j]));
                        }
                        if k != index {
                            assert(new_list[k] == list[k]);
                            assert(start.contains(list[k]));
                        }
                    }
                } else {
                    assert(after.children(x) == before.children(x));
                    assert forall|k: int| 0 <= k < after.children(x).len() implies {
                        let c = #[trigger] after.children(x)[k];
                        x.at() < c.at() < after.nodes.len() && after.node(c).parent == Some(x)
                    } by {
                        let c = before.children(x)[k];
                        assert(before.node(c).parent == Some(x));
                    }
                }
            }
            assert(before.contains(copy));
            before.lemma_same_shape_frame(after, copy, source@, new);
            assert forall|r: NodeRef| #[trigger] start.contains(r) implies after.node(r) == if r
                == parent {
                NodeView { children: Some(list.update(index as int, copy)), ..start.node(r) }
            } else if r == former {
                NodeView { parent: None, ..start.node(r) }
            } else {
                start.node(r)
            } by {
                assert(before.node(r) == start.node(r));
            }
            if start.hashed_but(parent) && source@.hashed() {
                assert forall|x: NodeRef| #[trigger] after.contains(x) && x != parent implies after.hash_ok(
                    x,
                ) by {
                    assert(before.contains(x));
                    assert(before.node_wf(x));
                    if x.at() < start.nodes.len() {
                        assert(start.contains(x));
                        assert(start.node_wf(x));
                        assert(before.node(x) == start.node(x));
                        assert forall|k: int| 0 <= k < start.children(x).len() implies before.hash(
                            #[trigger] start.children(x)[k],
                        ) == start.hash(start.children(x)[k]) by {
                            assert(before.node(start.children(x)[k]) == start.node(
                                start.children(x)[k],
                            ));
                        }
                        start.lemma_hash_ok_frame(before, x);
                    }
                    assert(before.hash_ok(x));
                    before.lemma_hash_ok_frame(after, x);
                }
            }
        }
    }

    /// Give `parent` copies of the subtrees below the nodes `nodes` of
    /// `source` as its children, in that order, in place of the children it
    /// had. Every node of the copies gets a new identity; the former children
    /// stay in the arena, without a parent. Where a handle names no node
    /// nothing is changed.
    pub fn set_children(&mut self, parent: NodeRef, source: &Tree<G>, nodes: Vec<NodeRef>)
        requires
            old(self).wf(),
            source.wf(),
            old(self)@.has_generator,
        ensures
            final(self).wf(),
            if old(self)@.contains(parent) && (forall|k: int|
                0 <= k < nodes@.len() ==> source@.contains(#[trigger] nodes@[k])) {
                old(self)@.restocked(final(self)@, parent, source@, nodes@)
            } else {
                final(self)@ == old(self)@
            },
            old(self)@.hashed_but(parent) && source@.hashed() ==> final(self)@.hashed_but(parent),
    {
        if !self.contains(parent) {
            return ;
        }
        let mut k: usize = 0;
        while k < nodes.len()
            invariant
                k <= nodes.len(),
                self.wf(),
                self@ == old(self)@,
                forall|j: int| 0 <= j < k ==> source@.contains(#[trigger] nodes@[j]),
            decreases nodes.len() - k,
        {
            if !source.contains(nodes[k]) {
                return ;
            }
            k += 1;
        }
        proof {
            old(self)@.lemma_abandon_wf(parent);
            assert(old(self)@.node_wf(parent));
            old(self)@.with_node(
                parent,
                NodeView { children: None, ..old(self)@.node(parent) },
            ).lemma_orphan_all(old(self)@.children(parent));
        }
        self.remove_children(parent);
        let ghost start = old(self)@;
        let ghost bare = self@;
        proof {
            assert forall|r: NodeRef| #[trigger] start.contains(r) implies bare.node(r) == if r
                == parent {
                NodeView { children: None, ..start.node(r) }
            } else if start.children(parent).contains(r) {
                NodeView { parent: None, ..start.node(r) }
            } else {
                start.node(r)
            } by {
                let stripped = start.with_node(
                    parent,
                    NodeView { children: None, ..start.node(parent) },
                );
                assert(stripped.contains(r));
                if start.children(parent).contains(r) {
                    let w = choose|w: int|
                        0 <= w < start.children(parent).len() && start.children(parent)[w] == r;
                    assert(parent.at() < start.children(parent)[w].at());
                }
            }
        }
        let mut kids: Vec<NodeRef> = Vec::new();
        let mut k: usize = 0;
        while k < nodes.len()
            invariant
                k <= nodes.len(),
                self.wf(),
                source.wf(),
                bare.wf(),
                bare.contains(parent),
                forall|j: int| 0 <= j < nodes@.len() ==> source@.contains(#[trigger] nodes@[j]),
                self@.has_generator,
                self@.root == bare.root,
                self@.nodes.len() >= bare.nodes.len(),
                self@.agrees_below(bare, bare.nodes.len() as int),
                kids.len() == k,
                forall|j: int|
                    0 <= j < k ==> {
                        let c = #[trigger] kids@[j];
                        &&& bare.nodes.len() <= c.at() < self@.nodes.len()
                        &&& self@.node(c).parent == Some(parent)
                        &&& self@.same_shape(c, source@, nodes@[j])
                    },
                forall|i: int, j: int| 0 <= i < j < k ==> kids@[i].at() < kids@[j].at(),
                source@.hashed() ==> forall|r: NodeRef|
                    bare.nodes.len() <= r.at() < self@.nodes.len() ==> #[trigger] self@.hash_ok(r),
            decreases nodes.len() - k,
        {
            let ghost before = self@;
            let ghost before_kids = kids@;
            proof {
                assert(before.contains(parent));
            }
            let c = self.copy_subtree(source, nodes[k], Some(parent));
            kids.push(c);
            proof {
                let after = self@;
                assert forall|j: int| 0 <= j < k + 1 implies {
                    let x = #[trigger] kids@[j];
                    &&& bare.nodes.len() <= x.at() < after.nodes.len()
                    &&& after.node(x).parent == Some(parent)
                    &&& after.same_shape(x, source@, nodes@[j])
                } by {
                    if j < k {
                        let x = before_kids[j];
                        assert(kids@[j] == x);
                        assert(before.contains(x));
                        before.lemma_same_shape_frame(after, x, source@, nodes@[j]);
                    }
                }
                assert forall|i: int, j: int| 0 <= i < j < k + 1 implies kids@[i].at() < kids@[j].at() by {
                    assert(kids@[i] == before_kids[i]);
                    if j < k {
                        assert(kids@[j] == before_kids[j]);
                    }
                }
                assert forall|r: NodeRef| r.at() < bare.nodes.len() implies #[trigger] after.node(r)
                    == bare.node(r) by {
                    assert(before.node(r) == bare.node(r));
                }
                if source@.hashed() {
                    assert forall|r: NodeRef|
                        bare.nodes.len() <= r.at() < after.nodes.len() implies #[trigger] after.hash_ok(
                        r,
                    ) by {
                        if r.at() < before.nodes.len() {
                            assert(before.contains(r));
                            assert(before.node_wf(r));
                            assert(before.hash_ok(r));
                            assert forall|j: int| 0 <= j < before.children(r).len() implies after.hash(
                                #[trigger] before.children(r)[j],
                            ) == before.hash(before.children(r)[j]) by {
                                assert(after.node(before.children(r)[j]) == before.node(
                                    before.children(r)[j],
                                ));
                            }
                            before.lemma_hash_ok_frame(after, r);
                        }
                    }
                }
            }
            k += 1;
        }
        let ghost before = self@;
        proof {
            assert(before.contains(parent));
        }
        self.put_children(parent, Some(kids));
        proof {
            let after = self@;
            assert(after.children(parent) == kids@);
            assert forall|x: NodeRef| #[trigger] after.contains(x) implies after.node_wf(x) by {
                assert(before.contains(x));
                assert(before.node_wf(x));
                if x != parent {
                    assert(after.children(x) == before.children(x));
                    assert forall|j: int| 0 <= j < after.children(x).len() implies {
                        let c = #[trigger] after.children(x)[j];
                        x.at() < c.at() < after.nodes.len() && after.node(c).parent == Some(x)
                    } by {
                        let c = before.children(x)[j];
                        assert(before.node(c).parent == Some(x));
                    }
                }
            }
            assert forall|j: int| 0 <= j < nodes@.len() implies {
                let c = #[trigger] after.children(parent)[j];
                &&& start.nodes.len() <= c.at() < after.nodes.len()
                &&& after.node(c).parent == Some(parent)
                &&& after.same_shape(c, source@, nodes@[j])
            } by {
                let x = kids@[j];
                assert(before.contains(x));
                before.lemma_same_shape_frame(after, x, source@, nodes@[j]);
            }
            assert forall|r: NodeRef| #[trigger] start.contains(r) implies after.node(r) == if r
                == parent {
                NodeView { children: after.node(parent).children, ..start.node(r) }
            } else if start.children(parent).contains(r) {
                NodeView { parent: None, ..start.node(r) }
            } else {
                start.node(r)
            } by {
                assert(before.node(r) == bare.node(r));
            }
            if start.hashed_but(parent) && source@.hashed() {
                assert forall|x: NodeRef| #[trigger] after.contains(x) && x != parent implies after.hash_ok(
                    x,
                ) by {
                    assert(before.contains(x));
                    assert(before.node_wf(x));
                    if x.at() < start.nodes.len() {
                        assert(start.contains(x));
                        assert(start.node_wf(x));
                        assert(before.node(x) == bare.node(x));
                        assert(start.hash_ok(x));
                        assert forall|j: int| 0 <= j < start.children(x).len() implies before.hash(
                            #[trigger] start.children(x)[j],
                        ) == start.hash(start.children(x)[j]) by {
                            let c = start.children(x)[j];
                            assert(start.contains(c));
                            assert(before.node(c) == bare.node(c));
                        }
                        start.lemma_hash_ok_frame(before, x);
                    }
                    assert(before.hash_ok(x));
                    assert forall|j: int| 0 <= j < before.children(x).len() implies after.hash(
                        #[trigger] before.children(x)[j],
                    ) == before.hash(before.children(x)[j]) by {
                        let c = before.children(x)[j];
                        assert(c.at() > x.at());
                    }
                    before.lemma_hash_ok_frame(after, x);
                }
            }
        }
    }
}

} // verus!
