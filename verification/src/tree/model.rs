//! The mathematical model of a tree: what its arena holds, as plain values,
//! and what it means for that to be a well-formed forest.

use crate::hash::{data_hash, subtree_hash};
use crate::node::NodeView;
use crate::noderef::NodeRef;
use vstd::prelude::*;

verus! {

/// What a tree holds: the nodes of its arena, slot by slot, the handle of the
/// root, and whether it has a generator of identities. Nodes that were
/// removed from their parent stay in the arena, detached.
pub struct TreeView {
    pub nodes: Seq<NodeView>,
    pub root: Option<NodeRef>,
    pub has_generator: bool,
}

impl TreeView {
    /// The handle names a node of this tree.
    pub open spec fn contains(self, r: NodeRef) -> bool {
        r.at() < self.nodes.len()
    }

    /// The node that the handle names.
    pub open spec fn node(self, r: NodeRef) -> NodeView {
        self.nodes[r.at()]
    }

    /// The children of a node, in sibling order.
    pub open spec fn children(self, r: NodeRef) -> Seq<NodeRef> {
        self.node(r).child_refs()
    }

    /// The cached subtree hash of a node.
    pub open spec fn hash(self, r: NodeRef) -> u64 {
        self.node(r).subtree_hash
    }

    /// The subtree hash that the root caches; none where there is no root.
    pub open spec fn root_hash(self) -> Option<u64> {
        match self.root {
            Some(r) => if self.contains(r) {
                Some(self.hash(r))
            } else {
                None
            },
            None => None,
        }
    }

    /// The node has no child list.
    pub open spec fn is_leaf(self, r: NodeRef) -> bool {
        self.node(r).children is None
    }

    /// What holds of each node of a well-formed tree: its parent and its
    /// children are nodes of the tree, the parent in a lower slot and the
    /// children in higher ones; each child names the node as its parent; and
    /// no child is listed twice.
    pub open spec fn node_wf(self, r: NodeRef) -> bool {
        &&& match self.node(r).parent {
            Some(p) => p.at() < r.at(),
            None => true,
        }
        &&& forall|k: int|
            0 <= k < self.children(r).len() ==> {
                let c = #[trigger] self.children(r)[k];
                r.at() < c.at() < self.nodes.len() && self.node(c).parent == Some(r)
            }
        &&& forall|j: int, k: int|
            0 <= j < k < self.children(r).len() ==> self.children(r)[j] != self.children(r)[k]
    }

    /// The tree is well formed.
    pub open spec fn wf(self) -> bool {
        &&& self.nodes.len() <= usize::MAX
        &&& match self.root {
            Some(r) => self.contains(r),
            None => true,
        }
        &&& forall|r: NodeRef| #[trigger] self.contains(r) ==> self.node_wf(r)
    }

    /// The node can be given a parent: it is a node of the tree, has no
    /// parent, and lies in a higher slot than `parent`.
    pub open spec fn can_adopt(self, parent: NodeRef, child: NodeRef) -> bool {
        &&& self.contains(parent)
        &&& self.contains(child)
        &&& self.node(child).parent is None
        &&& parent.at() < child.at()
    }

    /// `a` is `r` itself or one of the nodes above it.
    pub open spec fn is_above(self, a: NodeRef, r: NodeRef) -> bool
        decreases r.at(),
    {
        a == r || match self.node(r).parent {
            Some(p) => p.at() < r.at() && self.is_above(a, p),
            None => false,
        }
    }

    /// The cached subtree hashes of the children of a node, in sibling order.
    pub open spec fn child_hashes(self, r: NodeRef) -> Seq<u64> {
        Seq::new(self.children(r).len(), |k: int| self.hash(self.children(r)[k]))
    }

    /// The subtree hash that the node should cache: the one made of the hashes
    /// that its children cache and of the hash of its data.
    pub open spec fn fresh_hash(self, r: NodeRef) -> u64 {
        subtree_hash(self.child_hashes(r), data_hash(self.node(r).data))
    }

    /// The cached subtree hash of the node is the one that its data and its
    /// children give.
    pub open spec fn hash_ok(self, r: NodeRef) -> bool {
        self.hash(r) == self.fresh_hash(r)
    }

    /// Every node of the tree caches the subtree hash that its data and its
    /// children give.
    pub open spec fn hashed(self) -> bool {
        forall|r: NodeRef| #[trigger] self.contains(r) ==> self.hash_ok(r)
    }

    /// The subtree below `a` in this tree is a copy of the subtree below `b`
    /// in `other`: node by node the same data, position, cached hash and
    /// sibling order. Identities and slots may differ.
    pub open spec fn same_shape(self, a: NodeRef, other: TreeView, b: NodeRef) -> bool
        decreases self.nodes.len() - a.at(),
    {
        &&& self.node(a).data == other.node(b).data
        &&& self.node(a).position == other.node(b).position
        &&& self.node(a).subtree_hash == other.node(b).subtree_hash
        &&& self.node(a).children is Some <==> other.node(b).children is Some
        &&& self.children(a).len() == other.children(b).len()
        &&& forall|k: int|
            0 <= k < self.children(a).len() ==> a.at() < (#[trigger] self.children(a)[k]).at()
                < self.nodes.len() && self.same_shape(
                self.children(a)[k],
                other,
                other.children(b)[k],
            )
    }

    /// The two trees hold the same nodes in the slots below `n`.
    pub open spec fn agrees_below(self, other: TreeView, n: int) -> bool {
        &&& n <= self.nodes.len()
        &&& n <= other.nodes.len()
        &&& forall|r: NodeRef| r.at() < n ==> #[trigger] self.node(r) == other.node(r)
    }

    /// The two trees differ in nothing but the nodes themselves.
    pub open spec fn same_frame(self, other: TreeView) -> bool {
        &&& self.nodes.len() == other.nodes.len()
        &&& self.root == other.root
        &&& self.has_generator == other.has_generator
    }

    /// The tree with another root.
    pub open spec fn with_root(self, root: Option<NodeRef>) -> TreeView {
        TreeView { root, ..self }
    }

    /// The tree with another node in one slot.
    pub open spec fn with_node(self, r: NodeRef, node: NodeView) -> TreeView {
        TreeView { nodes: self.nodes.update(r.at(), node), ..self }
    }

    /// The tree after `child` was put under `parent` at `index`.
    pub open spec fn adopt(self, parent: NodeRef, index: int, child: NodeRef) -> TreeView {
        self.with_node(
            parent,
            NodeView {
                children: Some(self.children(parent).insert(index, child)),
                ..self.node(parent)
            },
        ).with_node(child, NodeView { parent: Some(parent), ..self.node(child) })
    }

    /// The tree after the child at `index` was taken from `parent`: it leaves
    /// the child list and has no parent any more.
    pub open spec fn disown(self, parent: NodeRef, index: int) -> TreeView {
        self.with_node(
            parent,
            NodeView { children: Some(self.children(parent).remove(index)), ..self.node(parent) },
        ).with_node(
            self.children(parent)[index],
            NodeView { parent: None, ..self.node(self.children(parent)[index]) },
        )
    }

    /// The tree after one node was given other data.
    pub open spec fn with_data(self, r: NodeRef, data: Seq<u8>) -> TreeView {
        self.with_node(r, NodeView { data, ..self.node(r) })
    }

    /// The tree after one node was given another cached subtree hash.
    pub open spec fn with_hash(self, r: NodeRef, subtree_hash: u64) -> TreeView {
        self.with_node(r, NodeView { subtree_hash, ..self.node(r) })
    }

    /// Where the parent of a node lists it among its children.
    pub open spec fn listed_at(self, r: NodeRef) -> Option<int> {
        if self.contains(r) && self.node(r).parent is Some && self.children(
            self.node(r).parent->0,
        ).contains(r) {
            Some(self.children(self.node(r).parent->0).index_of(r))
        } else {
            None
        }
    }

    /// Another root keeps the tree well formed.
    pub proof fn lemma_with_root_wf(self, root: Option<NodeRef>)
        requires
            self.wf(),
            root is Some ==> self.contains(root->0),
        ensures
            self.with_root(root).wf(),
    {
        let after = self.with_root(root);
        assert forall|x: NodeRef| #[trigger] after.contains(x) implies after.node_wf(x) by {
            assert(self.contains(x));
            assert(self.node_wf(x));
            assert(after.children(x) == self.children(x));
        }
    }

    /// The tree after `child`, which names `parent` as its parent already,
    /// was put behind the children of `parent`.
    pub open spec fn with_last_child(self, parent: NodeRef, child: NodeRef) -> TreeView {
        self.with_node(
            parent,
            NodeView { children: Some(self.children(parent).push(child)), ..self.node(parent) },
        )
    }

    /// A node that names `parent` as its parent, and lies behind all its
    /// children, can be made its last child.
    pub proof fn lemma_with_last_child_wf(self, parent: NodeRef, child: NodeRef)
        requires
            self.wf(),
            self.contains(parent),
            self.contains(child),
            self.node(child).parent == Some(parent),
            forall|k: int|
                0 <= k < self.children(parent).len() ==> (#[trigger] self.children(parent)[k]).at()
                    < child.at(),
        ensures
            self.with_last_child(parent, child).wf(),
    {
        let after = self.with_last_child(parent, child);
        let list = self.children(parent);
        assert(self.node_wf(parent));
        assert(self.node_wf(child));
        assert(after.children(parent) == list.push(child));
        assert forall|x: NodeRef| #[trigger] after.contains(x) implies after.node_wf(x) by {
            assert(self.contains(x));
            assert(self.node_wf(x));
            if x == parent {
                assert forall|k: int| 0 <= k < after.children(x).len() implies {
                    let c = #[trigger] after.children(x)[k];
                    x.at() < c.at() < after.nodes.len() && after.node(c).parent == Some(x)
                } by {
                    if k < list.len() {
                        assert(after.children(x)[k] == list[k]);
                    }
                }
                assert forall|j: int, k: int| 0 <= j < k < after.children(x).len() implies after.children(
                    x,
                )[j] != after.children(x)[k] by {
                    assert(after.children(x)[j] == list[j]);
                    if k < list.len() {
                        assert(after.children(x)[k] == list[k]);
                    }
                }
            } else {
                assert(after.children(x) == self.children(x));
                assert forall|k: int| 0 <= k < after.children(x).len() implies {
                    let c = #[trigger] after.children(x)[k];
                    x.at() < c.at() < after.nodes.len() && after.node(c).parent == Some(x)
                } by {
                    let c = self.children(x)[k];
                    assert(self.node(c).parent == Some(x));
                }
            }
        }
    }

    /// Adoption keeps the tree well formed.
    pub proof fn lemma_adopt_wf(self, parent: NodeRef, index: int, child: NodeRef)
        requires
            self.wf(),
            self.can_adopt(parent, child),
            0 <= index <= self.children(parent).len(),
        ensures
            self.adopt(parent, index, child).wf(),
    {
        let after = self.adopt(parent, index, child);
        let before_list = self.children(parent);
        let after_list = before_list.insert(index, child);
        assert(self.node_wf(parent));
        assert(self.node_wf(child));
        assert(after.children(parent) == after_list);
        assert forall|x: NodeRef| #[trigger] after.contains(x) implies after.node_wf(x) by {
            assert(self.contains(x));
            assert(self.node_wf(x));
            if x == parent {
                assert forall|k: int| 0 <= k < after_list.len() implies {
                    let c = #[trigger] after_list[k];
                    x.at() < c.at() < after.nodes.len() && after.node(c).parent == Some(x)
                } by {
                    if k < index {
                        assert(after_list[k] == before_list[k]);
                    } else if k > index {
                        assert(after_list[k] == before_list[k - 1]);
                    }
                }
                assert forall|j: int, k: int| 0 <= j < k < after_list.len() implies after_list[j]
                    != after_list[k] by {
                    let a = if j < index { j } else { j - 1 };
                    let b = if k < index { k } else { k - 1 };
                    if j != index {
                        assert(after_list[j] == before_list[a]);
                    }
                    if k != index {
                        assert(after_list[k] == before_list[b]);
                    }
                }
            } else {
                assert(after.children(x) == self.children(x));
                assert forall|k: int| 0 <= k < after.children(x).len() implies {
                    let c = #[trigger] after.children(x)[k];
                    x.at() < c.at() < after.nodes.len() && after.node(c).parent == Some(x)
                } by {
                    let c = self.children(x)[k];
                    assert(self.node(c).parent == Some(x));
                }
            }
        }
    }

    /// Taking a child from its parent keeps the tree well formed.
    pub proof fn lemma_disown_wf(self, parent: NodeRef, index: int)
        requires
            self.wf(),
            self.contains(parent),
            0 <= index < self.children(parent).len(),
        ensures
            self.disown(parent, index).wf(),
    {
        let after = self.disown(parent, index);
        let before_list = self.children(parent);
        let child = before_list[index];
        let after_list = before_list.remove(index);
        assert(self.node_wf(parent));
        assert(self.contains(child));
        assert(self.node_wf(child));
        assert(after.children(parent) == after_list);
        assert forall|x: NodeRef| #[trigger] after.contains(x) implies after.node_wf(x) by {
            assert(self.contains(x));
            assert(self.node_wf(x));
            if x == parent {
                assert forall|k: int| 0 <= k < after_list.len() implies {
                    let c = #[trigger] after_list[k];
                    x.at() < c.at() < after.nodes.len() && after.node(c).parent == Some(x)
                } by {
                    if k < index {
                        assert(after_list[k] == before_list[k]);
                    } else {
                        assert(after_list[k] == before_list[k + 1]);
                    }
                }
                assert forall|j: int, k: int| 0 <= j < k < after_list.len() implies after_list[j]
                    != after_list[k] by {
                    let a = if j < index { j } else { j + 1 };
                    let b = if k < index { k } else { k + 1 };
                    assert(after_list[j] == before_list[a]);
                    assert(after_list[k] == before_list[b]);
                }
            } else {
                assert(after.children(x) == self.children(x));
                assert forall|k: int| 0 <= k < after.children(x).len() implies {
                    let c = #[trigger] after.children(x)[k];
                    x.at() < c.at() < after.nodes.len() && after.node(c).parent == Some(x)
                } by {
                    let c = self.children(x)[k];
                    assert(self.node(c).parent == Some(x));
                }
            }
        }
    }

    /// Other data in a node keeps the tree well formed.
    pub proof fn lemma_with_data_wf(self, r: NodeRef, data: Seq<u8>)
        requires
            self.wf(),
            self.contains(r),
        ensures
            self.with_data(r, data).wf(),
    {
        let after = self.with_data(r, data);
        assert forall|x: NodeRef| #[trigger] after.contains(x) implies after.node_wf(x) by {
            assert(self.contains(x));
            assert(self.node_wf(x));
            assert(after.children(x) == self.children(x));
            assert forall|k: int| 0 <= k < after.children(x).len() implies {
                let c = #[trigger] after.children(x)[k];
                x.at() < c.at() < after.nodes.len() && after.node(c).parent == Some(x)
            } by {
                let c = self.children(x)[k];
                assert(self.node(c).parent == Some(x));
            }
        }
    }

    /// Another cached hash in a node keeps the tree well formed.
    pub proof fn lemma_with_hash_wf(self, r: NodeRef, subtree_hash: u64)
        requires
            self.wf(),
            self.contains(r),
        ensures
            self.with_hash(r, subtree_hash).wf(),
    {
        let after = self.with_hash(r, subtree_hash);
        assert forall|x: NodeRef| #[trigger] after.contains(x) implies after.node_wf(x) by {
            assert(self.contains(x));
            assert(self.node_wf(x));
            assert(after.children(x) == self.children(x));
            assert forall|k: int| 0 <= k < after.children(x).len() implies {
                let c = #[trigger] after.children(x)[k];
                x.at() < c.at() < after.nodes.len() && after.node(c).parent == Some(x)
            } by {
                let c = self.children(x)[k];
                assert(self.node(c).parent == Some(x));
            }
        }
    }

    /// The tree after each of the nodes lost its parent.
    pub open spec fn orphan_all(self, refs: Seq<NodeRef>) -> TreeView
        decreases refs.len(),
    {
        if refs.len() == 0 {
            self
        } else {
            let before = self.orphan_all(refs.drop_last());
            before.with_node(refs.last(), NodeView { parent: None, ..before.node(refs.last()) })
        }
    }

    /// The tree after `parent` lost all its children: it has no child list
    /// any more, and its former children have no parent.
    pub open spec fn abandon(self, parent: NodeRef) -> TreeView {
        self.with_node(parent, NodeView { children: None, ..self.node(parent) }).orphan_all(
            self.children(parent),
        )
    }

    /// What `orphan_all` does, node by node.
    pub proof fn lemma_orphan_all(self, refs: Seq<NodeRef>)
        requires
            forall|k: int| 0 <= k < refs.len() ==> self.contains(#[trigger] refs[k]),
        ensures
            self.orphan_all(refs).same_frame(self),
            forall|x: NodeRef| #[trigger]
                self.contains(x) ==> self.orphan_all(refs).node(x) == if refs.contains(x) {
                    NodeView { parent: None, ..self.node(x) }
                } else {
                    self.node(x)
                },
        decreases refs.len(),
    {
        if refs.len() > 0 {
            let front = refs.drop_last();
            self.lemma_orphan_all(front);
            let before = self.orphan_all(front);
            assert forall|x: NodeRef| #[trigger] self.contains(x) implies self.orphan_all(refs).node(x)
                == if refs.contains(x) {
                NodeView { parent: None, ..self.node(x) }
            } else {
                self.node(x)
            } by {
                if x == refs.last() {
                    assert(refs[refs.len() - 1] == x);
                } else if front.contains(x) {
                    let w = choose|w: int| 0 <= w < front.len() && front[w] == x;
                    assert(refs[w] == x);
                } else if refs.contains(x) {
                    let w = choose|w: int| 0 <= w < refs.len() && refs[w] == x;
                    assert(front[w] == x);
                }
            }
        }
    }

    /// Losing all children keeps the tree well formed.
    pub proof fn lemma_abandon_wf(self, parent: NodeRef)
        requires
            self.wf(),
            self.contains(parent),
        ensures
            self.abandon(parent).wf(),
            self.abandon(parent).same_frame(self),
    {
        let bare = self.with_node(parent, NodeView { children: None, ..self.node(parent) });
        let list = self.children(parent);
        let after = self.abandon(parent);
        assert(self.node_wf(parent));
        bare.lemma_orphan_all(list);
        assert forall|x: NodeRef| #[trigger] after.contains(x) implies after.node_wf(x) by {
            assert(self.contains(x));
            assert(bare.contains(x));
            assert(self.node_wf(x));
            if x == parent {
                assert(after.children(x) == Seq::<NodeRef>::empty());
            } else {
                assert(after.children(x) == self.children(x));
                assert forall|k: int| 0 <= k < after.children(x).len() implies {
                    let c = #[trigger] after.children(x)[k];
                    x.at() < c.at() < after.nodes.len() && after.node(c).parent == Some(x)
                } by {
                    let c = self.children(x)[k];
                    assert(self.node(c).parent == Some(x));
                    assert(bare.contains(c));
                    if list.contains(c) {
                        let w = choose|w: int| 0 <= w < list.len() && list[w] == c;
                        assert(self.node(list[w]).parent == Some(parent));
                    }
                }
            }
        }
    }

    /// The parent of a node that stands above `x`, or is `x`, stands above `x`.
    pub proof fn lemma_above_parent(self, a: NodeRef, p: NodeRef, x: NodeRef)
        requires
            self.is_above(a, x),
            self.node(a).parent == Some(p),
            p.at() < a.at(),
        ensures
            self.is_above(p, x),
        decreases x.at(),
    {
        if a == x {
            assert(self.is_above(p, p));
        } else {
            let q = self.node(x).parent->0;
            self.lemma_above_parent(a, p, q);
        }
    }

    /// The cached hashes from `node` up to the top of its tree were made
    /// anew, bottom up, and nothing else was changed: `after` is this tree
    /// after hash propagation from `node`.
    pub open spec fn rehashed_from(self, after: TreeView, node: NodeRef) -> bool {
        &&& after.same_frame(self)
        &&& forall|r: NodeRef| #[trigger]
            self.contains(r) ==> after.node(r) == (NodeView {
                subtree_hash: after.hash(r),
                ..self.node(r)
            })
        &&& forall|r: NodeRef| #[trigger]
            self.contains(r) && !self.is_above(r, node) ==> after.hash(r) == self.hash(r)
        &&& forall|r: NodeRef| #[trigger] self.contains(r) && self.is_above(r, node) ==> after.hash_ok(r)
    }

    /// Hash propagation makes no cached hash wrong: a node whose cached hash
    /// was the one that its data and children give still has such a hash.
    pub proof fn lemma_rehash_keeps(self, after: TreeView, node: NodeRef, r: NodeRef)
        requires
            self.wf(),
            self.rehashed_from(after, node),
            self.contains(r),
            self.hash_ok(r),
        ensures
            after.hash_ok(r),
    {
        if !self.is_above(r, node) {
            assert(self.node_wf(r));
            assert(after.children(r) == self.children(r));
            assert forall|k: int| 0 <= k < self.children(r).len() implies after.hash(
                self.children(r)[k],
            ) == self.hash(self.children(r)[k]) by {
                let c = self.children(r)[k];
                assert(self.contains(c));
                if self.is_above(c, node) {
                    self.lemma_above_parent(c, r, node);
                }
            }
            assert(after.child_hashes(r) =~= self.child_hashes(r));
        }
    }

    /// A copy stays a copy while the slots from its root on are left alone.
    pub proof fn lemma_same_shape_frame(
        self,
        after: TreeView,
        a: NodeRef,
        other: TreeView,
        b: NodeRef,
    )
        requires
            self.same_shape(a, other, b),
            self.contains(a),
            after.nodes.len() >= self.nodes.len(),
            forall|r: NodeRef|
                a.at() <= r.at() < self.nodes.len() ==> after.node(r) == #[trigger] self.node(r),
        ensures
            after.same_shape(a, other, b),
        decreases self.nodes.len() - a.at(),
    {
        assert(after.node(a) == self.node(a));
        assert forall|k: int| 0 <= k < after.children(a).len() implies a.at() < (
        #[trigger] after.children(a)[k]).at() < after.nodes.len() && after.same_shape(
            after.children(a)[k],
            other,
            other.children(b)[k],
        ) by {
            let c = self.children(a)[k];
            assert(a.at() < c.at() < self.nodes.len());
            self.lemma_same_shape_frame(after, c, other, other.children(b)[k]);
        }
    }

    /// The cached hash of a node stays right while its data, its child list,
    /// its cached hash and the cached hashes of its children are left alone.
    pub proof fn lemma_hash_ok_frame(self, after: TreeView, r: NodeRef)
        requires
            self.hash_ok(r),
            after.node(r).data == self.node(r).data,
            after.node(r).subtree_hash == self.node(r).subtree_hash,
            after.children(r) == self.children(r),
            forall|k: int|
                0 <= k < self.children(r).len() ==> after.hash(#[trigger] self.children(r)[k])
                    == self.hash(self.children(r)[k]),
        ensures
            after.hash_ok(r),
    {
        assert(after.child_hashes(r) =~= self.child_hashes(r));
    }

    /// A copy of a subtree has the cached hash of the subtree at its root,
    /// and that hash is right where the one of the copied subtree is.
    pub proof fn lemma_copy_hash_ok(self, a: NodeRef, other: TreeView, b: NodeRef)
        requires
            self.same_shape(a, other, b),
            other.hash_ok(b),
        ensures
            self.hash_ok(a),
    {
        assert(self.child_hashes(a) =~= other.child_hashes(b)) by {
            assert forall|k: int| 0 <= k < self.children(a).len() implies self.hash(
                self.children(a)[k],
            ) == other.hash(other.children(b)[k]) by {
                assert(self.same_shape(self.children(a)[k], other, other.children(b)[k]));
            }
        }
    }

    /// `after` is this tree after a copy of the subtree below `from` in
    /// `other` was put under `parent` at `index`. The copy stands in fresh
    /// slots, its root in the first of them.
    pub open spec fn grafted(
        self,
        after: TreeView,
        parent: NodeRef,
        index: int,
        other: TreeView,
        from: NodeRef,
    ) -> bool {
        let copy = NodeRef::of(self.nodes.len() as int);
        &&& after.nodes.len() > self.nodes.len()
        &&& after.root == self.root
        &&& after.has_generator == self.has_generator
        &&& forall|r: NodeRef| #[trigger]
            self.contains(r) ==> after.node(r) == if r == parent {
                NodeView {
                    children: Some(self.children(parent).insert(index, copy)),
                    ..self.node(r)
                }
            } else {
                self.node(r)
            }
        &&& after.node(copy).parent == Some(parent)
        &&& after.same_shape(copy, other, from)
    }

    /// `after` is this tree after the child of `parent` at `index` gave way
    /// to a copy of the subtree below `from` in `other`. The former child has
    /// no parent any more.
    pub open spec fn regrafted(
        self,
        after: TreeView,
        parent: NodeRef,
        index: int,
        other: TreeView,
        from: NodeRef,
    ) -> bool {
        let copy = NodeRef::of(self.nodes.len() as int);
        &&& after.nodes.len() > self.nodes.len()
        &&& after.root == self.root
        &&& after.has_generator == self.has_generator
        &&& forall|r: NodeRef| #[trigger]
            self.contains(r) ==> after.node(r) == if r == parent {
                NodeView {
                    children: Some(self.children(parent).update(index, copy)),
                    ..self.node(r)
                }
            } else if r == self.children(parent)[index] {
                NodeView { parent: None, ..self.node(r) }
            } else {
                self.node(r)
            }
        &&& after.node(copy).parent == Some(parent)
        &&& after.same_shape(copy, other, from)
    }

    /// `after` is this tree after the children of `parent` gave way to
    /// copies of the subtrees below the nodes `from` of `other`, in that
    /// order. The former children have no parent any more.
    pub open spec fn restocked(
        self,
        after: TreeView,
        parent: NodeRef,
        other: TreeView,
        from: Seq<NodeRef>,
    ) -> bool {
        &&& after.nodes.len() >= self.nodes.len()
        &&& after.root == self.root
        &&& after.has_generator == self.has_generator
        &&& after.node(parent).children is Some
        &&& after.children(parent).len() == from.len()
        &&& forall|r: NodeRef| #[trigger]
            self.contains(r) ==> after.node(r) == if r == parent {
                NodeView { children: after.node(parent).children, ..self.node(r) }
            } else if self.children(parent).contains(r) {
                NodeView { parent: None, ..self.node(r) }
            } else {
                self.node(r)
            }
        &&& forall|k: int|
            0 <= k < from.len() ==> {
                let c = #[trigger] after.children(parent)[k];
                &&& self.nodes.len() <= c.at() < after.nodes.len()
                &&& after.node(c).parent == Some(parent)
                &&& after.same_shape(c, other, from[k])
            }
    }

    /// Every node but `r` caches the subtree hash that its data and its
    /// children give.
    pub open spec fn hashed_but(self, r: NodeRef) -> bool {
        forall|x: NodeRef| #[trigger] self.contains(x) && x != r ==> self.hash_ok(x)
    }

    /// A change that leaves data, cached hashes and child lists of all nodes
    /// but `r` alone keeps their cached hashes right.
    pub proof fn lemma_hashed_but_frame(self, after: TreeView, r: NodeRef)
        requires
            self.wf(),
            self.hashed_but(r),
            after.nodes.len() == self.nodes.len(),
            forall|x: NodeRef| #[trigger]
                self.contains(x) ==> after.node(x).subtree_hash == self.node(x).subtree_hash,
            forall|x: NodeRef| #[trigger]
                self.contains(x) && x != r ==> after.node(x).data == self.node(x).data
                    && after.children(x) == self.children(x),
        ensures
            after.hashed_but(r),
    {
        assert forall|x: NodeRef| #[trigger] after.contains(x) && x != r implies after.hash_ok(x) by {
            assert(self.contains(x));
            assert(self.node_wf(x));
            assert forall|k: int| 0 <= k < self.children(x).len() implies after.hash(
                #[trigger] self.children(x)[k],
            ) == self.hash(self.children(x)[k]) by {
                assert(self.contains(self.children(x)[k]));
            }
            self.lemma_hash_ok_frame(after, x);
        }
    }

    /// Taking a child from `parent` leaves the cached hashes of all other
    /// nodes right.
    pub proof fn lemma_disown_hashed_but(self, parent: NodeRef, index: int)
        requires
            self.wf(),
            self.contains(parent),
            0 <= index < self.children(parent).len(),
            self.hashed_but(parent),
        ensures
            self.disown(parent, index).hashed_but(parent),
    {
        assert(self.node_wf(parent));
        assert(self.contains(self.children(parent)[index]));
        self.lemma_hashed_but_frame(self.disown(parent, index), parent);
    }

    /// Taking all children from `parent` leaves the cached hashes of all
    /// other nodes right.
    pub proof fn lemma_abandon_hashed_but(self, parent: NodeRef)
        requires
            self.wf(),
            self.contains(parent),
            self.hashed_but(parent),
        ensures
            self.abandon(parent).hashed_but(parent),
    {
        assert(self.node_wf(parent));
        self.with_node(parent, NodeView { children: None, ..self.node(parent) }).lemma_orphan_all(
            self.children(parent),
        );
        let after = self.abandon(parent);
        assert forall|x: NodeRef| #[trigger] self.contains(x) implies after.node(x).subtree_hash
            == self.node(x).subtree_hash by {
            assert(self.with_node(
                parent,
                NodeView { children: None, ..self.node(parent) },
            ).contains(x));
        }
        assert forall|x: NodeRef| #[trigger] self.contains(x) && x != parent implies after.node(
            x,
        ).data == self.node(x).data && after.children(x) == self.children(x) by {
            assert(self.with_node(
                parent,
                NodeView { children: None, ..self.node(parent) },
            ).contains(x));
        }
        self.lemma_hashed_but_frame(after, parent);
    }

    /// Other data in `r` leaves the cached hashes of all other nodes right.
    pub proof fn lemma_with_data_hashed_but(self, r: NodeRef, data: Seq<u8>)
        requires
            self.wf(),
            self.contains(r),
            self.hashed_but(r),
        ensures
            self.with_data(r, data).hashed_but(r),
    {
        self.lemma_hashed_but_frame(self.with_data(r, data), r);
    }

    /// Hash propagation from the one node whose cached hash may be wrong
    /// leaves every cached hash right.
    pub proof fn lemma_rehash_hashed(self, after: TreeView, r: NodeRef)
        requires
            self.wf(),
            self.contains(r),
            self.hashed_but(r),
            self.rehashed_from(after, r),
        ensures
            after.hashed(),
    {
        assert forall|x: NodeRef| #[trigger] after.contains(x) implies after.hash_ok(x) by {
            assert(self.contains(x));
            if x != r {
                self.lemma_rehash_keeps(after, r, x);
            }
        }
    }

    /// The number of nodes in the subtree below `r`, `r` itself counted.
    pub open spec fn size_below(self, r: NodeRef) -> nat
        decreases self.nodes.len() - r.at(), 1int, 0int,
    {
        1 + self.sizes_below(r, self.children(r).len() as int)
    }

    /// The number of nodes in the subtrees below the first `k` children of
    /// `r`.
    pub open spec fn sizes_below(self, r: NodeRef, k: int) -> nat
        decreases self.nodes.len() - r.at(), 0int, k,
    {
        if k <= 0 {
            0
        } else {
            (if r.at() < self.children(r)[k - 1].at() < self.nodes.len() {
                self.size_below(self.children(r)[k - 1])
            } else {
                0
            }) + self.sizes_below(r, k - 1)
        }
    }

    /// A node that stands above another, or is it, lies in no higher slot.
    pub proof fn lemma_above_slot(self, a: NodeRef, r: NodeRef)
        requires
            self.is_above(a, r),
        ensures
            a.at() <= r.at(),
        decreases r.at(),
    {
        if a != r {
            self.lemma_above_slot(a, self.node(r).parent->0);
        }
    }

    /// Hash propagation from a node leaves the node with its data, its
    /// children and their cached hashes, and with the cached hash that these
    /// give.
    pub proof fn lemma_rehash_at(self, after: TreeView, node: NodeRef)
        requires
            self.wf(),
            self.contains(node),
            self.rehashed_from(after, node),
        ensures
            after.contains(node),
            after.node(node).data == self.node(node).data,
            after.node(node).children == self.node(node).children,
            after.child_hashes(node) == self.child_hashes(node),
            after.hash_ok(node),
    {
        assert(self.node_wf(node));
        assert(self.is_above(node, node));
        assert forall|k: int| 0 <= k < self.children(node).len() implies after.hash(
            self.children(node)[k],
        ) == self.hash(self.children(node)[k]) by {
            let c = self.children(node)[k];
            assert(self.contains(c));
            if self.is_above(c, node) {
                self.lemma_above_slot(c, node);
            }
        }
        assert(after.child_hashes(node) =~= self.child_hashes(node));
    }

    /// A node has no more children than the tree has nodes.
    pub proof fn lemma_children_bounded(self, r: NodeRef)
        requires
            self.wf(),
            self.contains(r),
        ensures
            self.children(r).len() <= self.nodes.len(),
            self.child_hashes(r).len() <= usize::MAX,
    {
        let list = self.children(r);
        let slots = list.map_values(|c: NodeRef| c.at());
        assert(self.node_wf(r));
        assert(slots.no_duplicates()) by {
            assert forall|i: int, j: int| 0 <= i < slots.len() && 0 <= j < slots.len() && i != j implies slots[i]
                != slots[j] by {
                if i < j {
                    assert(list[i] != list[j]);
                } else {
                    assert(list[j] != list[i]);
                }
                assert(list[i].at() == list[j].at() ==> list[i] == list[j]);
            }
        }
        slots.unique_seq_to_set();
        vstd::set_lib::lemma_int_range(0, self.nodes.len() as int);
        assert(slots.to_set().subset_of(vstd::set_lib::set_int_range(0, self.nodes.len() as int))) by {
            assert forall|x: int| slots.to_set().contains(x) implies vstd::set_lib::set_int_range(
                0,
                self.nodes.len() as int,
            ).contains(x) by {
                let w = choose|w: int| 0 <= w < slots.len() && slots[w] == x;
                assert(list[w].at() == x);
            }
        }
        vstd::set_lib::lemma_len_subset(
            slots.to_set(),
            vstd::set_lib::set_int_range(0, self.nodes.len() as int),
        );
    }

    /// Which nodes stand above which depends on the parents alone.
    pub proof fn lemma_above_same_parents(self, other: TreeView, a: NodeRef, r: NodeRef)
        requires
            self.contains(r),
            other.nodes.len() >= self.nodes.len(),
            forall|y: NodeRef| #[trigger]
                self.contains(y) ==> other.node(y).parent == self.node(y).parent,
        ensures
            self.is_above(a, r) == other.is_above(a, r),
        decreases r.at(),
    {
        if a != r {
            match self.node(r).parent {
                Some(p) => {
                    if p.at() < r.at() {
                        self.lemma_above_same_parents(other, a, p);
                    }
                },
                None => {},
            }
        }
    }

    /// Two nodes that stand above one node, or are it, stand one above the
    /// other.
    pub proof fn lemma_above_comparable(self, a: NodeRef, b: NodeRef, x: NodeRef)
        requires
            self.is_above(a, x),
            self.is_above(b, x),
        ensures
            self.is_above(a, b) || self.is_above(b, a),
        decreases x.at(),
    {
        if a == x {
        } else if b == x {
        } else {
            self.lemma_above_comparable(a, b, self.node(x).parent->0);
        }
    }

    /// Standing above is transitive.
    pub proof fn lemma_above_trans(self, a: NodeRef, b: NodeRef, x: NodeRef)
        requires
            self.is_above(a, b),
            self.is_above(b, x),
        ensures
            self.is_above(a, x),
        decreases x.at(),
    {
        if b != x {
            self.lemma_above_trans(a, b, self.node(x).parent->0);
        }
    }

    /// In a tree that has the parents of this one, but for nodes that lost
    /// theirs, no node stands above another that does not here.
    pub proof fn lemma_above_pruned(self, pruned: TreeView, a: NodeRef, x: NodeRef)
        requires
            self.contains(x),
            forall|y: NodeRef| #[trigger]
                self.contains(y) ==> pruned.node(y).parent == self.node(y).parent || pruned.node(
                    y,
                ).parent is None,
            pruned.is_above(a, x),
        ensures
            self.is_above(a, x),
        decreases x.at(),
    {
        if a != x {
            let p = pruned.node(x).parent->0;
            self.lemma_above_pruned(pruned, a, p);
        }
    }

    /// The nodes of the subtree below `r` in pre-order: `r`, then the
    /// subtrees below its children, in sibling order.
    pub open spec fn preorder(self, r: NodeRef) -> Seq<NodeRef>
        decreases self.nodes.len() - r.at(), 1int, 0int,
    {
        seq![r] + self.preorder_below(r, self.children(r).len() as int)
    }

    /// The nodes of the subtrees below the first `k` children of `r`, in
    /// pre-order.
    pub open spec fn preorder_below(self, r: NodeRef, k: int) -> Seq<NodeRef>
        decreases self.nodes.len() - r.at(), 0int, k,
    {
        if k <= 0 {
            Seq::empty()
        } else {
            self.preorder_below(r, k - 1) + if r.at() < self.children(r)[k - 1].at()
                < self.nodes.len() {
                self.preorder(self.children(r)[k - 1])
            } else {
                Seq::empty()
            }
        }
    }

    /// Every node of the subtree below `r` is a node of the tree below
    /// which `r` stands, or is `r`.
    pub proof fn lemma_preorder_below(self, r: NodeRef, x: NodeRef)
        requires
            self.wf(),
            self.contains(r),
            self.preorder(r).contains(x),
        ensures
            self.contains(x),
            self.is_above(r, x),
        decreases self.nodes.len() - r.at(), 1int, 0int,
    {
        let rest = self.preorder_below(r, self.children(r).len() as int);
        let w = choose|w: int| 0 <= w < self.preorder(r).len() && self.preorder(r)[w] == x;
        if w > 0 {
            assert(rest[w - 1] == x);
            self.lemma_preorder_below_children(r, self.children(r).len() as int, x);
        }
    }

    /// Every node of the subtrees below the first `k` children of `r` is a
    /// node of the tree, of the subtree below one of these children.
    pub proof fn lemma_preorder_below_children(self, r: NodeRef, k: int, x: NodeRef)
        requires
            self.wf(),
            self.contains(r),
            0 <= k <= self.children(r).len(),
            self.preorder_below(r, k).contains(x),
        ensures
            self.contains(x),
            self.is_above(r, x),
            x != r,
            exists|j: int| 0 <= j < k && self.preorder(#[trigger] self.children(r)[j]).contains(x),
        decreases self.nodes.len() - r.at(), 0int, k,
    {
        assert(self.node_wf(r));
        if k > 0 {
            let c = self.children(r)[k - 1];
            let front = self.preorder_below(r, k - 1);
            let last = self.preorder(c);
            let all = self.preorder_below(r, k);
            assert(all == front + last);
            let w = choose|w: int| 0 <= w < all.len() && all[w] == x;
            if w < front.len() {
                assert(front[w] == x);
                self.lemma_preorder_below_children(r, k - 1, x);
                let j = choose|j: int|
                    0 <= j < k - 1 && self.preorder(#[trigger] self.children(r)[j]).contains(x);
                assert(self.preorder(self.children(r)[j]).contains(x));
            } else {
                assert(last[w - front.len()] == x);
                assert(self.contains(c));
                self.lemma_preorder_below(c, x);
                assert(self.is_above(r, r));
                assert(self.is_above(r, c));
                self.lemma_above_trans(r, c, x);
                self.lemma_above_slot(c, x);
                assert(self.preorder(self.children(r)[k - 1]).contains(x));
            }
        }
    }

    /// No node stands twice in the subtree below `r`.
    pub proof fn lemma_preorder_no_duplicates(self, r: NodeRef)
        requires
            self.wf(),
            self.contains(r),
        ensures
            self.preorder(r).no_duplicates(),
        decreases self.nodes.len() - r.at(), 1int, 0int,
    {
        let n = self.children(r).len() as int;
        let rest = self.preorder_below(r, n);
        self.lemma_preorder_below_no_duplicates(r, n);
        let all = self.preorder(r);
        assert forall|i: int, j: int| 0 <= i < all.len() && 0 <= j < all.len() && i != j implies all[i]
            != all[j] by {
            if i > 0 && j > 0 {
                assert(rest[i - 1] != rest[j - 1]);
            } else if i > 0 {
                assert(rest.contains(rest[i - 1]));
                self.lemma_preorder_below_children(r, n, rest[i - 1]);
            } else {
                assert(rest.contains(rest[j - 1]));
                self.lemma_preorder_below_children(r, n, rest[j - 1]);
            }
        }
    }

    /// No node stands twice in the subtrees below the first `k` children of
    /// `r`.
    pub proof fn lemma_preorder_below_no_duplicates(self, r: NodeRef, k: int)
        requires
            self.wf(),
            self.contains(r),
            0 <= k <= self.children(r).len(),
        ensures
            self.preorder_below(r, k).no_duplicates(),
        decreases self.nodes.len() - r.at(), 0int, k,
    {
        assert(self.node_wf(r));
        if k > 0 {
            let c = self.children(r)[k - 1];
            let front = self.preorder_below(r, k - 1);
            let last = self.preorder(c);
            let all = self.preorder_below(r, k);
            assert(all == front + last);
            assert(self.contains(c));
            self.lemma_preorder_below_no_duplicates(r, k - 1);
            self.lemma_preorder_no_duplicates(c);
            assert forall|i: int, j: int| 0 <= i < all.len() && 0 <= j < all.len() && i != j implies all[i]
                != all[j] by {
                if i < front.len() && j < front.len() {
                    assert(front[i] != front[j]);
                } else if i >= front.len() && j >= front.len() {
                    assert(last[i - front.len()] != last[j - front.len()]);
                } else {
                    // One node below an earlier child, one below this child.
                    let a = if i < front.len() { i } else { j };
                    let b = if i < front.len() { j } else { i };
                    let x = front[a];
                    let y = last[b - front.len()];
                    assert(front.contains(x));
                    assert(last.contains(y));
                    if x == y {
                        self.lemma_preorder_below_children(r, k - 1, x);
                        let e = choose|e: int|
                            0 <= e < k - 1 && self.preorder(#[trigger] self.children(r)[e]).contains(x);
                        let ce = self.children(r)[e];
                        assert(self.contains(ce));
                        self.lemma_preorder_below(ce, x);
                        self.lemma_preorder_below(c, x);
                        self.lemma_above_comparable(ce, c, x);
                        assert(ce != c);
                        if self.is_above(ce, c) {
                            self.lemma_above_slot(ce, r);
                        } else {
                            self.lemma_above_slot(c, r);
                        }
                    }
                }
            }
        }
    }

    /// The subtree below a child of `r` is part of the subtrees below the
    /// children of `r`, and of the subtree below `r`.
    pub proof fn lemma_preorder_holds_child(self, r: NodeRef, k: int, j: int, y: NodeRef)
        requires
            self.wf(),
            self.contains(r),
            0 <= j < k <= self.children(r).len(),
            self.preorder(self.children(r)[j]).contains(y),
        ensures
            self.preorder_below(r, k).contains(y),
            k == self.children(r).len() ==> self.preorder(r).contains(y),
        decreases k,
    {
        assert(self.node_wf(r));
        let front = self.preorder_below(r, k - 1);
        let last = self.preorder(self.children(r)[k - 1]);
        let all = self.preorder_below(r, k);
        assert(all == front + last);
        if j == k - 1 {
            let w = choose|w: int| 0 <= w < last.len() && last[w] == y;
            assert(all[front.len() + w] == y);
        } else {
            self.lemma_preorder_holds_child(r, k - 1, j, y);
            let w = choose|w: int| 0 <= w < front.len() && front[w] == y;
            assert(all[w] == y);
        }
        if k == self.children(r).len() {
            let w = choose|w: int| 0 <= w < all.len() && all[w] == y;
            assert(self.preorder(r)[w + 1] == y);
        }
    }

    /// The subtree below `r` holds the children of every node that it holds.
    pub proof fn lemma_preorder_closed(self, r: NodeRef, x: NodeRef, k: int)
        requires
            self.wf(),
            self.contains(r),
            self.preorder(r).contains(x),
            0 <= k < self.children(x).len(),
        ensures
            self.preorder(r).contains(self.children(x)[k]),
        decreases self.nodes.len() - r.at(),
    {
        let n = self.children(r).len() as int;
        assert(self.node_wf(r));
        if x == r {
            let c = self.children(r)[k];
            assert(self.preorder(c)[0] == c);
            assert(self.preorder(c).contains(c));
            self.lemma_preorder_holds_child(r, n, k, c);
        } else {
            let w = choose|w: int| 0 <= w < self.preorder(r).len() && self.preorder(r)[w] == x;
            assert(self.preorder_below(r, n)[w - 1] == x);
            self.lemma_preorder_below_children(r, n, x);
            let j = choose|j: int|
                0 <= j < n && self.preorder(#[trigger] self.children(r)[j]).contains(x);
            let c = self.children(r)[j];
            assert(self.contains(c));
            self.lemma_preorder_closed(c, x, k);
            self.lemma_preorder_holds_child(r, n, j, self.children(x)[k]);
        }
    }
}

} // verus!
