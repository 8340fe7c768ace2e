//! Nodes: the record that a tree keeps for each of its nodes.

use crate::hash::{data_hash, hash_data};
use crate::iterator::NodePosition;
use crate::noderef::NodeRef;
use crate::NodeId;
use vstd::prelude::*;

verus! {

/// What a node holds, as plain values.
pub struct NodeView {
    pub id: NodeId,
    pub data: Seq<u8>,
    pub parent: Option<NodeRef>,
    pub children: Option<Seq<NodeRef>>,
    pub position: Option<NodePosition>,
    pub subtree_hash: u64,
}

impl NodeView {
    /// The children in sibling order; none where the node has no child list.
    pub open spec fn child_refs(self) -> Seq<NodeRef> {
        match self.children {
            Some(children) => children,
            None => Seq::empty(),
        }
    }
}

/// The handles that an optional child list holds.
pub open spec fn children_view(children: Option<Vec<NodeRef>>) -> Option<Seq<NodeRef>> {
    match children {
        Some(c) => Some(c@),
        None => None,
    }
}

/// One node: its identity and data, the handle of its parent, the handles of
/// its children in sibling order, its position, and the cached hash of the
/// subtree below it.
#[derive(Debug, Clone)]
pub struct Node {
    pub(crate) id: NodeId,
    pub(crate) data: Vec<u8>,
    pub(crate) parent: Option<NodeRef>,
    pub(crate) children: Option<Vec<NodeRef>>,
    pub(crate) position: Option<NodePosition>,
    pub(crate) subtree_hash: u64,
}

impl View for Node {
    type V = NodeView;

    closed spec fn view(&self) -> NodeView {
        NodeView {
            id: self.id,
            data: self.data@,
            parent: self.parent,
            children: children_view(self.children),
            position: self.position,
            subtree_hash: self.subtree_hash,
        }
    }
}

impl Node {
    /// A node without parent and position, with a subtree hash of zero.
    pub fn new(id: NodeId, data: Vec<u8>, children: Option<Vec<NodeRef>>) -> (node: Self)
        ensures
            node@ == (NodeView {
                id,
                data: data@,
                parent: None,
                children: children_view(children),
                position: None,
                subtree_hash: 0,
            }),
    {
        Node { id, data, parent: None, children, position: None, subtree_hash: 0 }
    }

    /// The node with its parent set.
    pub fn with_parent(self, parent: NodeRef) -> (node: Self)
        ensures
            node@ == (NodeView { parent: Some(parent), ..self@ }),
    {
        let mut node = self;
        node.parent = Some(parent);
        node
    }

    /// The node with its position set.
    pub fn with_position(self, position: NodePosition) -> (node: Self)
        ensures
            node@ == (NodeView { position: Some(position), ..self@ }),
    {
        let mut node = self;
        node.position = Some(position);
        node
    }

    /// The identity of the node.
    pub fn id(&self) -> (id: NodeId)
        ensures
            id == self@.id,
    {
        self.id
    }

    /// Gives the node another identity.
    pub fn set_id(&mut self, id: NodeId)
        ensures
            final(self)@ == (NodeView { id, ..old(self)@ }),
    {
        self.id = id;
    }

    /// The position of the node, if it was given one.
    pub fn get_position(&self) -> (position: Option<&NodePosition>)
        ensures
            match position {
                Some(p) => self@.position == Some(*p),
                None => self@.position is None,
            },
    {
        self.position.as_ref()
    }

    /// Gives the node a position.
    pub fn set_position(&mut self, position: NodePosition)
        ensures
            final(self)@ == (NodeView { position: Some(position), ..old(self)@ }),
    {
        self.position = Some(position);
    }

    /// Stores a subtree hash in the node.
    pub fn set_subtree_hash(&mut self, subtree_hash: u64)
        ensures
            final(self)@ == (NodeView { subtree_hash, ..old(self)@ }),
    {
        self.subtree_hash = subtree_hash;
    }

    /// The subtree hash stored in the node.
    pub fn get_subtree_hash(&self) -> (h: u64)
        ensures
            h == self@.subtree_hash,
    {
        self.subtree_hash
    }

    /// The data of the node.
    pub fn data(&self) -> (data: &Vec<u8>)
        ensures
            data@ == self@.data,
    {
        &self.data
    }

    /// Replaces the data of the node.
    pub fn set_data(&mut self, data: Vec<u8>)
        ensures
            final(self)@ == (NodeView { data: data@, ..old(self)@ }),
    {
        self.data = data;
    }

    /// The handle of the parent, if the node has one.
    pub fn parent(&self) -> (parent: Option<NodeRef>)
        ensures
            parent == self@.parent,
    {
        self.parent
    }

    /// Sets the handle of the parent.
    pub fn set_parent(&mut self, parent: NodeRef)
        ensures
            final(self)@ == (NodeView { parent: Some(parent), ..old(self)@ }),
    {
        self.parent = Some(parent);
    }

    /// Forgets the parent.
    pub fn clear_parent(&mut self)
        ensures
            final(self)@ == (NodeView { parent: None, ..old(self)@ }),
    {
        self.parent = None;
    }

    /// The child list, if the node has one.
    pub fn children(&self) -> (children: Option<&Vec<NodeRef>>)
        ensures
            match children {
                Some(c) => self@.children == Some(c@),
                None => self@.children is None,
            },
    {
        self.children.as_ref()
    }

    /// Replaces the child list, or removes it with `None`.
    pub fn set_children(&mut self, children: Option<Vec<NodeRef>>)
        ensures
            final(self)@ == (NodeView { children: children_view(children), ..old(self)@ }),
    {
        self.children = children;
    }

    /// Takes the child list out of the node, leaving it without one.
    pub fn take_children(&mut self) -> (children: Option<Vec<NodeRef>>)
        ensures
            final(self)@ == (NodeView { children: None, ..old(self)@ }),
            match children {
                Some(c) => old(self)@.children == Some(c@),
                None => old(self)@.children is None,
            },
    {
        self.children.take()
    }

    /// The number of children of the node.
    pub fn num_children(&self) -> (n: usize)
        ensures
            n == self@.child_refs().len(),
    {
        match &self.children {
            Some(children) => children.len(),
            None => 0,
        }
    }

    /// Adds a child behind the others, giving the node a child list if it had
    /// none.
    pub fn push_child(&mut self, node: NodeRef)
        ensures
            final(self)@ == (NodeView {
                children: Some(old(self)@.child_refs().push(node)),
                ..old(self)@
            }),
    {
        match &mut self.children {
            Some(children) => {
                children.push(node);
            },
            None => {
                let mut children: Vec<NodeRef> = Vec::new();
                children.push(node);
                self.children = Some(children);
            },
        }
    }

    /// Inserts a child at `index`, giving the node a child list if it had
    /// none. With an index behind the end of the list nothing is changed and
    /// `None` is returned.
    pub fn insert_child(&mut self, node: NodeRef, index: usize) -> (done: Option<()>)
        ensures
            done is Some <==> index <= old(self)@.child_refs().len(),
            done is Some ==> final(self)@ == (NodeView {
                children: Some(old(self)@.child_refs().insert(index as int, node)),
                ..old(self)@
            }),
            done is None ==> final(self)@ == old(self)@,
    {
        match &mut self.children {
            Some(children) => {
                if index <= children.len() {
                    children.insert(index, node);
                    Some(())
                } else {
                    None
                }
            },
            None => {
                if index == 0 {
                    let mut children: Vec<NodeRef> = Vec::new();
                    children.push(node);
                    proof {
                        assert(children@ == Seq::<NodeRef>::empty().insert(0, node));
                    }
                    self.children = Some(children);
                    Some(())
                } else {
                    None
                }
            },
        }
    }

    /// Removes the child at `index` and returns its handle. Where there is no
    /// such child nothing is changed and `None` is returned.
    pub fn remove_child_index(&mut self, index: usize) -> (removed: Option<NodeRef>)
        ensures
            match removed {
                Some(child) => index < old(self)@.child_refs().len() && child == old(
                    self,
                )@.child_refs()[index as int] && final(self)@ == (NodeView {
                    children: Some(old(self)@.child_refs().remove(index as int)),
                    ..old(self)@
                }),
                None => index >= old(self)@.child_refs().len() && final(self)@ == old(self)@,
            },
    {
        match &mut self.children {
            Some(children) => {
                if index < children.len() {
                    Some(children.remove(index))
                } else {
                    None
                }
            },
            None => None,
        }
    }

    /// Puts `source` in the place of the child at `index`. Where there is no
    /// such child nothing is changed.
    pub fn replace_child(&mut self, source: NodeRef, index: usize)
        ensures
            final(self)@ == if index < old(self)@.child_refs().len() {
                NodeView {
                    children: Some(old(self)@.child_refs().update(index as int, source)),
                    ..old(self)@
                }
            } else {
                old(self)@
            },
    {
        match &mut self.children {
            Some(children) => {
                if index < children.len() {
                    children[index] = source;
                }
            },
            None => {},
        }
    }

    /// The hash of the node's own data.
    pub fn data_xxhash(&self) -> (h: u64)
        ensures
            h == data_hash(self@.data),
    {
        hash_data(&self.data)
    }
}

} // verus!
