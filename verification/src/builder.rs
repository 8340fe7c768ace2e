//! Builders for constructing trees.
//!
//! A [`TreeBuilder`] builds a tree depth first. `root` starts the root and
//! `child` starts a child of the node that was started last and is not yet
//! finished; `end` finishes that node. A node that is being built is a scope,
//! described by a [`NodeBuilder`]. When a scope ends, the subtree hash of its
//! node is made of the hashes of its children, which ended before it, and of
//! the hash of its own data.

use crate::hash::{data_hash, hash_subtree, subtree_hash};
use crate::id::UniqueGenerator;
use crate::iterator::NodePosition;
use crate::node::{Node, NodeView};
use crate::noderef::NodeRef;
use crate::tree::model::TreeView;
use crate::tree::Tree;
use crate::{NodeId, NodeIndex};
use vstd::prelude::*;

verus! {

/// A node under construction: its handle, its position, and the subtree
/// hashes of the children that it has so far.
pub struct NodeBuilder {
    // Handle of this node.
    pub(crate) node_ref: NodeRef,
    pub(crate) position: NodePosition,
    // Subtree hashes of the finished children, in sibling order.
    pub(crate) child_hashes: Vec<u64>,
}

impl NodeBuilder {
    /// The handle of the node that the scope builds.
    pub open(crate) spec fn handle(self) -> NodeRef {
        self.node_ref
    }

    /// The position of the node that the scope builds.
    pub open(crate) spec fn place(self) -> NodePosition {
        self.position
    }

    /// The subtree hashes gathered so far.
    pub open(crate) spec fn gathered(self) -> Seq<u64> {
        self.child_hashes@
    }

    /// A scope for a node that has no children yet.
    pub fn new(node_ref: NodeRef, position: NodePosition) -> (scope: Self)
        ensures
            scope.handle() == node_ref,
            scope.place() == position,
            scope.gathered() == Seq::<u64>::empty(),
    {
        NodeBuilder { node_ref, position, child_hashes: Vec::new() }
    }

    /// The handle of the node that the scope builds.
    pub fn node(&self) -> (r: NodeRef)
        ensures
            r == self.handle(),
    {
        self.node_ref
    }

    /// The position of the node that the scope builds.
    pub fn position(&self) -> (p: &NodePosition)
        ensures
            *p == self.place(),
    {
        &self.position
    }
}

/// What a builder holds: the tree made so far, the handles of the nodes
/// under construction, outermost first, and for each depth the horizontal
/// index that the next child of a node of that depth gets.
pub struct BuilderView {
    pub tree: TreeView,
    pub open: Seq<NodeRef>,
    pub depth_index: Seq<NodeIndex>,
}

impl BuilderView {
    /// A root was started.
    pub open spec fn has_root(self) -> bool {
        self.tree.root is Some || self.open.len() > 0
    }

    /// The horizontal index of the next child of a node of depth `depth`.
    pub open spec fn next_index(self, depth: int) -> NodeIndex {
        if 0 <= depth < self.depth_index.len() {
            self.depth_index[depth]
        } else {
            0
        }
    }

    /// The indices after a node of depth `depth` got one more child.
    pub open spec fn bumped(self, depth: int) -> Seq<NodeIndex> {
        if 0 <= depth < self.depth_index.len() {
            self.depth_index.update(depth, (self.depth_index[depth] + 1) as usize)
        } else {
            self.depth_index.push(1)
        }
    }

    /// The node that `child` makes for `data` in the slot `r`, but for its
    /// identity.
    pub open spec fn started(self, data: Seq<u8>) -> NodeView {
        NodeView {
            id: 0,
            data,
            parent: if self.open.len() > 0 {
                Some(self.open.last())
            } else {
                None
            },
            children: None,
            position: Some(
                if self.open.len() > 0 {
                    NodePosition {
                        depth: self.open.len() as usize,
                        index: self.next_index(self.open.len() - 1),
                        child_index: self.tree.children(self.open.last()).len() as usize,
                    }
                } else {
                    NodePosition { depth: 0, index: 0, child_index: 0 }
                },
            ),
            subtree_hash: 0,
        }
    }

    /// The builder after the innermost scope ended: its node caches the hash
    /// of its subtree, and is the last child of the node of the scope around
    /// it or, where there is none, the root.
    pub open spec fn ended(self) -> BuilderView {
        if self.open.len() == 0 {
            self
        } else {
            let top = self.open.last();
            let hashed = self.tree.with_hash(top, self.tree.fresh_hash(top));
            let tree = if self.open.len() == 1 {
                hashed.with_root(Some(top))
            } else {
                hashed.with_last_child(self.open[self.open.len() - 2], top)
            };
            BuilderView { tree, open: self.open.drop_last(), ..self }
        }
    }

    /// The builder after all its scopes ended, innermost first.
    pub open spec fn finished(self) -> BuilderView
        decreases self.open.len(),
    {
        if self.open.len() == 0 {
            self
        } else {
            self.ended().finished()
        }
    }
}

/// What holds of the scope `open[i]`: its node is a node of the tree at
/// depth `i`, a child of the node of the scope around it that lies behind the
/// children which that node has so far, and the scope has gathered the hashes
/// of the children of its node.
pub closed spec fn scope_ok(t: TreeView, open: Seq<NodeBuilder>, i: int) -> bool {
    let scope = open[i];
    &&& t.contains(scope.node_ref)
    &&& scope.position.depth == i
    &&& t.node(scope.node_ref).position == Some(scope.position)
    &&& scope.child_hashes@ == t.child_hashes(scope.node_ref)
    &&& i == 0 ==> t.node(scope.node_ref).parent is None
    &&& i > 0 ==> t.node(scope.node_ref).parent == Some(open[i - 1].node_ref)
    &&& i > 0 ==> forall|k: int|
        0 <= k < t.children(open[i - 1].node_ref).len() ==> (#[trigger] t.children(
            open[i - 1].node_ref,
        )[k]).at() < scope.node_ref.at()
}

/// No scope is open for the node.
pub closed spec fn is_finished(open: Seq<NodeBuilder>, r: NodeRef) -> bool {
    forall|i: int| 0 <= i < open.len() ==> (#[trigger] open[i]).node_ref != r
}

/// The tree is well formed, every scope is in order, and every finished node
/// caches the hash of its subtree.
pub closed spec fn scopes_wf(t: TreeView, open: Seq<NodeBuilder>) -> bool {
    &&& t.wf()
    &&& forall|i: int| 0 <= i < open.len() ==> #[trigger] scope_ok(t, open, i)
    &&& forall|r: NodeRef| #[trigger] t.contains(r) && is_finished(open, r) ==> t.hash_ok(r)
}

// The hashes of the children of `x` are what they were, where only the cached
// hash of `top` and the child list of the parent of `top` were changed, and
// `x` is not that parent.
proof fn lemma_end_keeps_hashes(start: TreeView, t: TreeView, top: NodeRef, x: NodeRef)
    requires
        start.wf(),
        start.contains(x),
        start.contains(top),
        start.node(top).parent != Some(x),
        t.nodes.len() == start.nodes.len(),
        forall|r: NodeRef| #[trigger] start.contains(r) && r != top ==> t.hash(r) == start.hash(r),
        t.children(x) == start.children(x),
    ensures
        t.child_hashes(x) == start.child_hashes(x),
{
    assert(start.node_wf(x));
    assert forall|k: int| 0 <= k < start.children(x).len() implies t.hash(start.children(x)[k])
        == start.hash(start.children(x)[k]) by {
        let c = start.children(x)[k];
        assert(start.contains(c));
        assert(start.node(c).parent == Some(x));
    }
    assert(t.child_hashes(x) =~= start.child_hashes(x));
}

// Ending the scope of the root keeps the builder in order.
proof fn lemma_end_root(start: TreeView, scopes: Seq<NodeBuilder>, h: u64)
    requires
        scopes_wf(start, scopes),
        scopes.len() == 1,
        h == start.fresh_hash(scopes[0].node_ref),
    ensures
        scopes_wf(
            start.with_hash(scopes[0].node_ref, h).with_root(Some(scopes[0].node_ref)),
            scopes.drop_last(),
        ),
{
    let top = scopes[0].node_ref;
    let hashed = start.with_hash(top, h);
    let t = hashed.with_root(Some(top));
    assert(scope_ok(start, scopes, 0));
    start.lemma_with_hash_wf(top, h);
    hashed.lemma_with_root_wf(Some(top));
    assert forall|x: NodeRef| #[trigger] t.contains(x) && is_finished(scopes.drop_last(), x) implies t.hash_ok(
        x,
    ) by {
        assert(start.contains(x));
        assert(t.children(x) == start.children(x));
        lemma_end_keeps_hashes(start, t, top, x);
        if x != top {
            assert(is_finished(scopes, x));
        }
    }
}

// Ending the scope of a child keeps the builder in order.
proof fn lemma_end_child(
    start: TreeView,
    scopes: Seq<NodeBuilder>,
    h: u64,
    around: NodeBuilder,
)
    requires
        scopes_wf(start, scopes),
        scopes.len() >= 2,
        h == start.fresh_hash(scopes.last().node_ref),
        around.node_ref == scopes[scopes.len() - 2].node_ref,
        around.position == scopes[scopes.len() - 2].position,
        around.child_hashes@ == scopes[scopes.len() - 2].child_hashes@.push(h),
    ensures
        scopes_wf(
            start.with_hash(scopes.last().node_ref, h).with_last_child(
                scopes[scopes.len() - 2].node_ref,
                scopes.last().node_ref,
            ),
            scopes.drop_last().update(scopes.len() - 2, around),
        ),
{
    let last = scopes.len() - 2;
    let top = scopes.last().node_ref;
    let parent = scopes[last].node_ref;
    let hashed = start.with_hash(top, h);
    let t = hashed.with_last_child(parent, top);
    let open = scopes.drop_last().update(last, around);
    assert(scope_ok(start, scopes, last + 1));
    assert(scope_ok(start, scopes, last));
    assert(start.node_wf(top));
    assert(start.node_wf(parent));
    start.lemma_with_hash_wf(top, h);
    hashed.lemma_with_last_child_wf(parent, top);
    assert(t.children(parent) == start.children(parent).push(top));
    assert forall|r: NodeRef| #[trigger] start.contains(r) && r != top implies t.hash(r)
        == start.hash(r) by {
    }
    assert forall|i: int| 0 <= i < open.len() implies #[trigger] scope_ok(t, open, i) by {
        assert(scope_ok(start, scopes, i));
        let sc = scopes[i];
        assert(open[i].node_ref == sc.node_ref);
        assert(open[i].position == sc.position);
        assert(start.node_wf(sc.node_ref));
        if i == last {
            assert(t.child_hashes(parent) =~= start.child_hashes(parent).push(h)) by {
                assert forall|k: int| 0 <= k < start.children(parent).len() implies t.hash(
                    start.children(parent)[k],
                ) == start.hash(start.children(parent)[k]) by {
                    assert(start.children(parent)[k].at() < top.at());
                }
            }
        } else {
            assert(open[i] == sc);
            assert(scope_ok(start, scopes, i + 1));
            assert(sc.node_ref.at() < scopes[i + 1].node_ref.at()) by {
                assert(start.contains(scopes[i + 1].node_ref));
                assert(start.node_wf(scopes[i + 1].node_ref));
            }
            lemma_scopes_ascend(start, scopes, i + 1, last);
            assert(sc.node_ref != parent);
            assert(t.children(sc.node_ref) == start.children(sc.node_ref));
            lemma_end_keeps_hashes(start, t, top, sc.node_ref);
        }
        if i > 0 {
            assert(scope_ok(start, scopes, i - 1));
            let above = scopes[i - 1];
            assert(open[i - 1].node_ref == above.node_ref);
            lemma_scopes_ascend(start, scopes, i - 1, last);
            assert(above.node_ref != parent);
            assert(t.children(above.node_ref) == start.children(above.node_ref));
        }
    }
    assert forall|x: NodeRef| #[trigger] t.contains(x) && is_finished(open, x) implies t.hash_ok(x) by {
        assert(start.contains(x));
        assert(open[last].node_ref == parent);
        assert(x != parent);
        assert(t.children(x) == start.children(x));
        lemma_end_keeps_hashes(start, t, top, x);
        if x != top {
            assert forall|i: int| 0 <= i < scopes.len() implies (#[trigger] scopes[i]).node_ref
                != x by {
                if i < open.len() {
                    assert(open[i].node_ref == scopes[i].node_ref);
                }
            }
            assert(is_finished(scopes, x));
        }
    }
}

// The nodes of the scopes lie in ascending slots.
proof fn lemma_scopes_ascend(t: TreeView, scopes: Seq<NodeBuilder>, i: int, j: int)
    requires
        scopes_wf(t, scopes),
        0 <= i <= j < scopes.len(),
    ensures
        i < j ==> scopes[i].node_ref.at() < scopes[j].node_ref.at(),
        i == j ==> scopes[i].node_ref == scopes[j].node_ref,
    decreases j - i,
{
    if i < j {
        lemma_scopes_ascend(t, scopes, i, j - 1);
        assert(scope_ok(t, scopes, j));
        assert(t.node_wf(scopes[j].node_ref));
    }
}

// Opening a scope for a new node keeps the builder in order.
proof fn lemma_open_scope(start: TreeView, scopes: Seq<NodeBuilder>, node: NodeView, scope: NodeBuilder)
    requires
        scopes_wf(start, scopes),
        start.nodes.len() < usize::MAX,
        scope.node_ref == NodeRef::of(start.nodes.len() as int),
        scope.position.depth == scopes.len(),
        scope.child_hashes@ == Seq::<u64>::empty(),
        node.children is None,
        node.position == Some(scope.position),
        node.parent == if scopes.len() > 0 {
            Some(scopes.last().node_ref)
        } else {
            None
        },
    ensures
        scopes_wf(TreeView { nodes: start.nodes.push(node), ..start }, scopes.push(scope)),
{
    let t = TreeView { nodes: start.nodes.push(node), ..start };
    let open = scopes.push(scope);
    let r = scope.node_ref;
    assert(t.children(r) =~= Seq::<NodeRef>::empty());
    assert(t.child_hashes(r) =~= Seq::<u64>::empty());
    if scopes.len() > 0 {
        assert(scope_ok(start, scopes, scopes.len() - 1));
    }
    assert forall|x: NodeRef| #[trigger] t.contains(x) implies t.node_wf(x) by {
        if x != r {
            assert(start.contains(x));
            assert(start.node_wf(x));
            assert(t.node(x) == start.node(x));
        }
    }
    assert forall|x: NodeRef| #[trigger] start.contains(x) implies t.child_hashes(x)
        == start.child_hashes(x) by {
        assert(start.node_wf(x));
        assert forall|k: int| 0 <= k < start.children(x).len() implies t.hash(start.children(x)[k])
            == start.hash(start.children(x)[k]) by {
            assert(start.contains(start.children(x)[k]));
        }
        assert(t.child_hashes(x) =~= start.child_hashes(x));
    }
    assert forall|i: int| 0 <= i < open.len() implies #[trigger] scope_ok(t, open, i) by {
        if i < scopes.len() {
            assert(scope_ok(start, scopes, i));
            assert(open[i] == scopes[i]);
            assert(start.contains(scopes[i].node_ref));
            assert(t.node(scopes[i].node_ref) == start.node(scopes[i].node_ref));
            if i > 0 {
                assert(scope_ok(start, scopes, i - 1));
                assert(open[i - 1] == scopes[i - 1]);
                assert(t.node(scopes[i - 1].node_ref) == start.node(scopes[i - 1].node_ref));
            }
        } else if i > 0 {
            let above = scopes[i - 1];
            assert(open[i - 1] == above);
            assert(start.contains(above.node_ref));
            assert(start.node_wf(above.node_ref));
            assert(t.node(above.node_ref) == start.node(above.node_ref));
        }
    }
    assert forall|x: NodeRef| #[trigger] t.contains(x) && is_finished(open, x) implies t.hash_ok(x) by {
        assert(open[open.len() - 1].node_ref == r);
        assert(start.contains(x));
        assert forall|i: int| 0 <= i < scopes.len() implies (#[trigger] scopes[i]).node_ref != x by {
            assert(open[i] == scopes[i]);
        }
        assert(is_finished(scopes, x));
        assert(start.hash_ok(x));
    }
}

/// A builder for constructing trees.
pub struct TreeBuilder<G = crate::IdGenerator> where G: UniqueGenerator<Output = NodeId> {
    pub(crate) tree: Tree<G>,
    pub(crate) depth_index: Vec<NodeIndex>,
    pub(crate) open: Vec<NodeBuilder>,
}

impl<G> View for TreeBuilder<G> where G: UniqueGenerator<Output = NodeId> {
    type V = BuilderView;

    closed spec fn view(&self) -> BuilderView {
        BuilderView {
            tree: self.tree@,
            open: self.open@.map_values(|scope: NodeBuilder| scope.node_ref),
            depth_index: self.depth_index@,
        }
    }
}

impl<G> TreeBuilder<G> where G: UniqueGenerator<Output = NodeId> {
    /// The builder is well formed: the tree made so far is, the scopes are
    /// nested as their nodes are, every node that is finished caches the
    /// hash of its subtree, and every scope has gathered the hashes of the
    /// children of its node.
    pub closed spec fn wf(&self) -> bool {
        &&& self.tree@.has_generator
        &&& self.open@.len() > 0 ==> self.tree@.root is None
        &&& self.depth_index@.len() + 1 >= self.open@.len()
        &&& forall|d: int|
            0 <= d < self.depth_index@.len() ==> self.depth_index@[d] <= self.tree@.nodes.len()
        &&& scopes_wf(self.tree@, self.open@)
    }

    /// Creates a new builder with a generator of its own.
    pub fn new() -> (builder: Self) where G: Default
        ensures
            builder.wf(),
            builder@.tree.nodes.len() == 0,
            builder@.tree.root is None,
            builder@.open.len() == 0,
            builder@.depth_index.len() == 0,
    {
        Self::with_generator(G::default())
    }

    /// Creates a new builder that takes identities from `idgen`.
    pub fn with_generator(idgen: G) -> (builder: Self)
        ensures
            builder.wf(),
            builder@.tree.nodes.len() == 0,
            builder@.tree.root is None,
            builder@.open.len() == 0,
            builder@.depth_index.len() == 0,
    {
        TreeBuilder { tree: Tree::with_generator(idgen), depth_index: Vec::new(), open: Vec::new() }
    }

    /// The number of scopes that are open.
    pub fn depth(&self) -> (n: usize)
        ensures
            n == self@.open.len(),
    {
        self.open.len()
    }

    /// The position of the node under construction, if there is one.
    pub fn position(&self) -> (p: Option<NodePosition>)
        requires
            self.wf(),
        ensures
            p is Some <==> self@.open.len() > 0,
            p is Some ==> self@.tree.contains(self@.open.last()) && p == self@.tree.node(
                self@.open.last(),
            ).position && p->0.depth == self@.open.len() - 1,
    {
        if self.open.len() == 0 {
            None
        } else {
            let scope = &self.open[self.open.len() - 1];
            proof {
                assert(scope_ok(self.tree@, self.open@, self.open@.len() - 1));
            }
            Some(scope.position)
        }
    }

    /// The handle of the node under construction, if there is one.
    pub fn node(&self) -> (r: Option<NodeRef>)
        ensures
            r == if self@.open.len() > 0 {
                Some(self@.open.last())
            } else {
                None
            },
    {
        if self.open.len() == 0 {
            None
        } else {
            Some(self.open[self.open.len() - 1].node_ref)
        }
    }

    // Puts a new node into the arena and opens a scope for it.
    fn open_scope(&mut self, data: Vec<u8>) -> (r: NodeRef)
        requires
            old(self).wf(),
            old(self)@.open.len() == 0 ==> old(self)@.tree.root is None,
        ensures
            final(self).wf(),
            r == NodeRef::of(old(self)@.tree.nodes.len() as int),
            final(self)@.tree == (TreeView {
                nodes: old(self)@.tree.nodes.push(
                    NodeView { id: final(self)@.tree.node(r).id, ..old(self)@.started(data@) },
                ),
                ..old(self)@.tree
            }),
            final(self)@.open == old(self)@.open.push(r),
            final(self)@.depth_index == if old(self)@.open.len() > 0 {
                old(self)@.bumped(old(self)@.open.len() - 1)
            } else {
                old(self)@.depth_index
            },
    {
        let id: NodeId = self.tree.generate_id();
        let ghost start = self.tree@;
        let ghost scopes = self.open@;
        let mut node = Node::new(id, data, None);
        let mut position = NodePosition::zero();
        if self.open.len() > 0 {
            let level: usize = self.open.len() - 1;
            let parent = self.open[level].node_ref;
            proof {
                assert(scope_ok(start, scopes, level as int));
            }
            let child_index: usize = self.tree.node(parent).num_children();
            if self.depth_index.len() <= level {
                self.depth_index.push(0);
            }
            position =
            NodePosition { depth: self.open.len(), index: self.depth_index[level], child_index };
            node = node.with_parent(parent);
        }
        node = node.with_position(position);
        let r = self.tree.push_node(node);
        if self.open.len() > 0 {
            let level: usize = self.open.len() - 1;
            let index: usize = self.depth_index[level];
            self.depth_index[level] = index + 1;
        }
        self.open.push(NodeBuilder::new(r, position));
        proof {
            assert(self@.open =~= old(self)@.open.push(r));
            lemma_open_scope(start, scopes, self.tree@.node(r), self.open@.last());
            assert(self.tree@ == (TreeView { nodes: start.nodes.push(self.tree@.node(r)), ..start }));
            assert(self.open@ == scopes.push(self.open@.last()));
        }
        r
    }

    /// Adds a root node to the tree and opens its scope: the children that
    /// follow are children of the root, until `end` is called for it.
    pub fn root(self, data: Vec<u8>) -> (builder: Self)
        requires
            self.wf(),
            !self@.has_root(),
        ensures
            builder.wf(),
            builder@.tree == (TreeView {
                nodes: self@.tree.nodes.push(
                    NodeView {
                        id: builder@.tree.nodes[self@.tree.nodes.len() as int].id,
                        ..self@.started(data@)
                    },
                ),
                ..self@.tree
            }),
            builder@.open == self@.open.push(NodeRef::of(self@.tree.nodes.len() as int)),
            builder@.depth_index == self@.depth_index,
    {
        let mut builder = self;
        let _ = builder.open_scope(data);
        builder
    }

    /// Adds a child to the node under construction and opens its scope: the
    /// children that follow are children of the new node, until `end` is
    /// called for it. Without a node under construction nothing is done and
    /// `None` is returned.
    pub fn child(&mut self, data: Vec<u8>) -> (made: Option<NodeRef>)
        requires
            old(self).wf(),
        ensures
            final(self).wf(),
            made is Some <==> old(self)@.open.len() > 0,
            match made {
                Some(r) => {
                    &&& r == NodeRef::of(old(self)@.tree.nodes.len() as int)
                    &&& final(self)@.tree == (TreeView {
                        nodes: old(self)@.tree.nodes.push(
                            NodeView {
                                id: final(self)@.tree.node(r).id,
                                ..old(self)@.started(data@)
                            },
                        ),
                        ..old(self)@.tree
                    })
                    &&& final(self)@.open == old(self)@.open.push(r)
                    &&& final(self)@.depth_index == old(self)@.bumped(old(self)@.open.len() - 1)
                },
                None => final(self)@ == old(self)@,
            },
    {
        if self.open.len() == 0 {
            return None;
        }
        Some(self.open_scope(data))
    }

    /// Ends the scope of the node under construction: its subtree hash is
    /// made of the hashes of its children and of the hash of its data, and
    /// the node becomes the last child of the node around it or, where there
    /// is none, the root of the tree. Without a node under construction
    /// nothing is done.
    pub fn end(&mut self)
        requires
            old(self).wf(),
        ensures
            final(self).wf(),
            final(self)@ == old(self)@.ended(),
    {
        let ghost start = self.tree@;
        let ghost scopes = self.open@;
        let scope = match self.open.pop() {
            Some(scope) => scope,
            None => {
                return ;
            },
        };
        let top = scope.node_ref;
        proof {
            assert(scopes[scopes.len() - 1] == scope);
            assert(scope_ok(start, scopes, scopes.len() - 1));
            assert(self@.open =~= old(self)@.open.drop_last());
            assert(old(self)@.open.last() == top);
        }
        let own = self.tree.node(top).data_xxhash();
        let h = hash_subtree(&scope.child_hashes, own);
        self.tree.put_hash(top, h);
        if self.open.len() == 0 {
            self.tree.put_root(Some(top));
            proof {
                lemma_end_root(start, scopes, h);
                assert(self.open@ =~= scopes.drop_last());
            }
        } else {
            let last: usize = self.open.len() - 1;
            let parent = self.open[last].node_ref;
            proof {
                assert(scopes[last as int].node_ref == parent);
                assert(scope_ok(start, scopes, last as int));
                assert(old(self)@.open[old(self)@.open.len() - 2] == parent);
            }
            let n: usize = self.tree.node(parent).num_children();
            let _ = self.tree.list_insert(parent, n, top);
            self.open[last].child_hashes.push(h);
            proof {
                assert(self@.open =~= old(self)@.open.drop_last());
                let hashed = start.with_hash(top, h);
                assert(hashed.children(parent).insert(n as int, top) =~= hashed.children(parent).push(
                    top,
                ));
                assert(self.tree@ == hashed.with_last_child(parent, top));
                lemma_end_child(start, scopes, h, self.open@[last as int]);
                assert(self.open@ =~= scopes.drop_last().update(last as int, self.open@[last as int]));
            }
        }
    }

    /// Returns the constructed tree when finished building it. Scopes that
    /// are still open are ended first, innermost first. Without a root there
    /// is no tree.
    pub fn done(self) -> (tree: Option<Tree<G>>)
        requires
            self.wf(),
        ensures
            tree is Some <==> self@.has_root(),
            match tree {
                Some(t) => {
                    &&& t.wf()
                    &&& t@ == self@.finished().tree
                    &&& t@.root is Some
                    &&& t@.has_generator
                    &&& t@.hashed()
                },
                None => true,
            },
    {
        let mut builder = self;
        while builder.open.len() > 0
            invariant
                builder.wf(),
                builder@.finished() == self@.finished(),
                builder@.has_root() == self@.has_root(),
            decreases builder.open.len(),
        {
            builder.end();
        }
        proof {
            let t = builder.tree@;
            assert forall|x: NodeRef| #[trigger] t.contains(x) implies t.hash_ok(x) by {
                assert(is_finished(builder.open@, x));
            }
        }
        let tree = builder.tree;
        if tree.try_root().is_some() {
            Some(tree)
        } else {
            None
        }
    }
}

} // verus!
