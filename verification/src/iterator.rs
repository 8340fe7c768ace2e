//! Positions of nodes and the pre-order, position-aware traversal.

pub mod laws;
pub mod leaf;

use crate::id::UniqueGenerator;
use crate::noderef::NodeRef;
use crate::tree::model::TreeView;
use crate::tree::Tree;
use crate::NodeId;
use vstd::prelude::*;

verus! {

/// Where a node sits in its tree.
#[derive(Debug, Hash, Clone, Copy, PartialEq, Eq, PartialOrd, Ord, Structural)]
pub struct NodePosition {
    /// Vertical depth.
    pub depth: usize,
    /// Horizontal index among the nodes of this depth.
    pub index: usize,
    /// Offset of the node in its parent's child list.
    pub child_index: usize,
}

impl NodePosition {
    /// The position of a root: all three coordinates are zero.
    pub fn zero() -> (p: Self)
        ensures
            p == (NodePosition { depth: 0, index: 0, child_index: 0 }),
    {
        NodePosition { depth: 0, index: 0, child_index: 0 }
    }

    /// The position with every coordinate at `usize::MAX`.
    pub fn max() -> (p: Self)
        ensures
            p == (NodePosition {
                depth: usize::MAX,
                index: usize::MAX,
                child_index: usize::MAX,
            }),
    {
        NodePosition { depth: usize::MAX, index: usize::MAX, child_index: usize::MAX }
    }

    /// The depth of this node.
    pub fn depth(&self) -> (d: usize)
        ensures
            d == self.depth,
    {
        self.depth
    }

    /// The horizontal position of this node among all nodes of its depth.
    pub fn index(&self) -> (i: usize)
        ensures
            i == self.index,
    {
        self.index
    }

    /// The position of this node among its parent's children.
    pub fn child_index(&self) -> (c: usize)
        ensures
            c == self.child_index,
    {
        self.child_index
    }
}

/// A node that a traversal has reached, with its position.
#[derive(Debug, Clone, Copy, PartialEq, Eq, Structural)]
pub struct IterNode {
    pub(crate) position: NodePosition,
    pub(crate) node: NodeRef,
}

impl IterNode {
    /// The position that the traversal gave the node.
    pub open(crate) spec fn place(self) -> NodePosition {
        self.position
    }

    /// The handle of the node.
    pub open(crate) spec fn handle(self) -> NodeRef {
        self.node
    }

    /// The item for a node at a position.
    pub open(crate) spec fn of(position: NodePosition, node: NodeRef) -> IterNode {
        IterNode { position, node }
    }

    /// The index along the horizontal at the current depth.
    pub fn index(&self) -> (i: usize)
        ensures
            i == self.place().index,
    {
        self.position.index
    }

    /// The vertical depth of this node.
    pub fn depth(&self) -> (d: usize)
        ensures
            d == self.place().depth,
    {
        self.position.depth
    }

    /// The offset of this node among the children of its parent.
    pub fn child_index(&self) -> (c: usize)
        ensures
            c == self.place().child_index,
    {
        self.position.child_index
    }

    /// The position of this node.
    pub fn position(&self) -> (p: &NodePosition)
        ensures
            *p == self.place(),
    {
        &self.position
    }

    /// The handle of this node.
    pub fn node(&self) -> (r: NodeRef)
        ensures
            r == self.handle(),
    {
        self.node
    }
}

/// The sum of two numbers, or `usize::MAX` where that is less.
pub open spec fn capped_add(a: usize, b: int) -> usize {
    if a + b <= usize::MAX {
        (a + b) as usize
    } else {
        usize::MAX
    }
}

/// What a traversal holds: a stack of nodes that are still to be visited,
/// each with its child index, horizontal index and depth, the next one last;
/// and for each depth the horizontal index that the next child of a node of
/// that depth gets.
pub struct IterView {
    pub stack: Seq<(usize, usize, usize, NodeRef)>,
    pub index: Seq<usize>,
}

impl IterView {
    /// The traversal that is about to visit `root`.
    pub open spec fn start(root: NodeRef) -> IterView {
        IterView { stack: seq![(0usize, 0usize, 0usize, root)], index: Seq::empty() }
    }

    /// The node that is visited next, with its position.
    pub open spec fn item(self) -> IterNode {
        let (child_index, index, depth, node) = self.stack.last();
        IterNode::of(NodePosition { depth, index, child_index }, node)
    }

    /// The children of the node that is visited next; none where the handle
    /// names no node of the tree.
    pub open spec fn next_children(self, tree: TreeView) -> Seq<NodeRef> {
        if tree.contains(self.stack.last().3) {
            tree.children(self.stack.last().3)
        } else {
            Seq::empty()
        }
    }

    /// The horizontal index that the first child of the node visited next
    /// gets.
    pub open spec fn base(self) -> usize {
        let depth = self.stack.last().2;
        if depth < self.index.len() {
            self.index[depth as int]
        } else {
            0
        }
    }

    /// The entries that the visit of the next node puts on the stack: its
    /// children, last child first, one level down, with consecutive
    /// horizontal indices.
    pub open spec fn pushed(self, tree: TreeView) -> Seq<(usize, usize, usize, NodeRef)> {
        let children = self.next_children(tree);
        let n = children.len() as int;
        Seq::new(
            children.len(),
            |i: int|
                (
                    (n - 1 - i) as usize,
                    capped_add(self.base(), n - 1 - i),
                    capped_add(self.stack.last().2, 1),
                    children[n - 1 - i],
                ),
        )
    }

    /// The horizontal indices after the visit of the next node: where it has
    /// a child list, the index of its depth has grown by the number of its
    /// children.
    pub open spec fn bumped(self, tree: TreeView) -> Seq<usize> {
        let depth = self.stack.last().2 as int;
        if tree.contains(self.stack.last().3) && !tree.is_leaf(self.stack.last().3) {
            Seq::new(
                if depth < self.index.len() {
                    self.index.len()
                } else {
                    (depth + 1) as nat
                },
                |d: int|
                    if d == depth {
                        capped_add(self.base(), self.next_children(tree).len() as int)
                    } else if d < self.index.len() {
                        self.index[d]
                    } else {
                        0
                    },
            )
        } else {
            self.index
        }
    }

    /// The traversal after the visit of the next node.
    pub open spec fn stepped(self, tree: TreeView) -> IterView {
        IterView { stack: self.stack.drop_last() + self.pushed(tree), index: self.bumped(tree) }
    }

    /// The nodes that the traversal visits in its next `steps` steps, in
    /// order, with their positions.
    pub open spec fn walk(self, tree: TreeView, steps: nat) -> Seq<IterNode>
        decreases steps,
    {
        if steps == 0 || self.stack.len() == 0 {
            Seq::empty()
        } else {
            seq![self.item()] + self.stepped(tree).walk(tree, (steps - 1) as nat)
        }
    }

    /// Every node on the stack is a node of the tree.
    pub open spec fn within(self, tree: TreeView) -> bool {
        forall|k: int| 0 <= k < self.stack.len() ==> tree.contains((#[trigger] self.stack[k]).3)
    }
}

/// The nodes of the subtree below `root`, in pre-order, with their
/// positions.
pub open spec fn nodes_below(tree: TreeView, root: NodeRef) -> Seq<IterNode> {
    IterView::start(root).walk(tree, tree.size_below(root))
}

/// The number of nodes that a traversal with this stack still visits.
pub open spec fn stack_weight(tree: TreeView, stack: Seq<(usize, usize, usize, NodeRef)>) -> nat
    decreases stack.len(),
{
    if stack.len() == 0 {
        0
    } else {
        tree.size_below(stack.last().3) + stack_weight(tree, stack.drop_last())
    }
}

/// A pre-order traversal of a subtree that gives each node its position:
/// depth, horizontal index among the nodes of that depth, and offset among
/// the children of its parent.
pub struct NodeRefIter {
    stack: Vec<(usize, usize, usize, NodeRef)>,
    index: Vec<usize>,
}

impl View for NodeRefIter {
    type V = IterView;

    closed spec fn view(&self) -> IterView {
        IterView { stack: self.stack@, index: self.index@ }
    }
}

impl NodeRefIter {
    /// A traversal of the subtree below `node`.
    pub fn new(node: NodeRef) -> (iter: Self)
        ensures
            iter@ == IterView::start(node),
    {
        let mut stack: Vec<(usize, usize, usize, NodeRef)> = Vec::new();
        stack.push((0, 0, 0, node));
        proof {
            assert(stack@ =~= seq![(0usize, 0usize, 0usize, node)]);
        }
        NodeRefIter { stack, index: Vec::new() }
    }

    /// Whether the traversal has visited all nodes.
    pub fn is_done(&self) -> (done: bool)
        ensures
            done == (self@.stack.len() == 0),
    {
        self.stack.len() == 0
    }

    /// Visits the next node: returns it with its position, and puts its
    /// children on the stack, so that they are visited next, in sibling
    /// order. Returns `None` when all nodes have been visited.
    pub fn next<G>(&mut self, tree: &Tree<G>) -> (item: Option<IterNode>) where
        G: UniqueGenerator<Output = NodeId>,

        ensures
            match item {
                Some(node) => {
                    &&& old(self)@.stack.len() > 0
                    &&& node == old(self)@.item()
                    &&& final(self)@ == old(self)@.stepped(tree@)
                },
                None => old(self)@.stack.len() == 0 && final(self)@ == old(self)@,
            },
    {
        let ghost before = self@;
        let (child_index, index, depth, node) = match self.stack.pop() {
            Some(entry) => entry,
            None => {
                return None;
            },
        };
        let ghost rest = self.stack@;
        proof {
            assert(before.stack.last() == (child_index, index, depth, node));
            assert(rest == before.stack.drop_last());
        }
        if tree.contains(node) && tree.has_children(node) {
            let children = tree.children_of(node);
            let n: usize = children.len();
            while self.index.len() <= depth
                invariant
                    self.stack@ == rest,
                    forall|d: int|
                        0 <= d < self.index@.len() ==> self.index@[d] == if d < before.index.len() {
                            before.index[d]
                        } else {
                            0
                        },
                    self.index@.len() >= before.index.len(),
                    self.index@.len() <= depth + 1 || self.index@.len() == before.index.len(),
                decreases depth + 1 - self.index.len(),
            {
                self.index.push(0);
            }
            let base: usize = self.index[depth];
            self.index[depth] = base.saturating_add(n);
            proof {
                assert(base == before.base());
                assert(self.index@ =~= before.bumped(tree@));
            }
            let below: usize = depth.saturating_add(1);
            let mut k: usize = n;
            while k > 0
                invariant
                    k <= n,
                    n == children@.len(),
                    children@ == before.next_children(tree@),
                    base == before.base(),
                    below == capped_add(depth, 1),
                    before.stack.last() == (child_index, index, depth, node),
                    self.index@ == before.bumped(tree@),
                    self.stack@ == rest + before.pushed(tree@).take(n - k),
                decreases k,
            {
                k -= 1;
                self.stack.push((k, base.saturating_add(k), below, children[k]));
                proof {
                    assert(before.pushed(tree@)[n - 1 - k] == (
                        k,
                        capped_add(base, k as int),
                        below,
                        children@[k as int],
                    ));
                    assert(self.stack@ =~= rest + before.pushed(tree@).take(n - k));
                }
            }
            proof {
                assert(before.pushed(tree@).take(n as int) == before.pushed(tree@));
            }
        } else {
            proof {
                assert(before.next_children(tree@) =~= Seq::<NodeRef>::empty());
                assert(self.stack@ =~= rest + before.pushed(tree@));
            }
        }
        Some(IterNode { position: NodePosition { depth, index, child_index }, node })
    }
}

/// The weight of two stacks, one on top of the other.
pub proof fn lemma_weight_joined(
    tree: TreeView,
    a: Seq<(usize, usize, usize, NodeRef)>,
    b: Seq<(usize, usize, usize, NodeRef)>,
)
    ensures
        stack_weight(tree, a + b) == stack_weight(tree, a) + stack_weight(tree, b),
    decreases b.len(),
{
    if b.len() == 0 {
        assert(a + b == a);
    } else {
        lemma_weight_joined(tree, a, b.drop_last());
        assert((a + b).drop_last() == a + b.drop_last());
        assert((a + b).last() == b.last());
    }
}

// The entries that a visit puts on the stack weigh what the subtrees below
// the children of the visited node hold.
proof fn lemma_weight_pushed(tree: TreeView, state: IterView, j: int)
    requires
        tree.wf(),
        state.stack.len() > 0,
        tree.contains(state.stack.last().3),
        0 <= j <= state.next_children(tree).len(),
    ensures
        stack_weight(tree, state.pushed(tree).take(j)) + tree.sizes_below(
            state.stack.last().3,
            state.next_children(tree).len() - j,
        ) == tree.sizes_below(state.stack.last().3, state.next_children(tree).len() as int),
    decreases j,
{
    let node = state.stack.last().3;
    let n = state.next_children(tree).len() as int;
    let pushed = state.pushed(tree);
    if j > 0 {
        lemma_weight_pushed(tree, state, j - 1);
        assert(pushed.take(j).drop_last() == pushed.take(j - 1));
        assert(pushed.take(j).last() == pushed[j - 1]);
        assert(pushed[j - 1].3 == tree.children(node)[n - j]);
        assert(tree.node_wf(node));
    } else {
        assert(pushed.take(0) =~= Seq::empty());
    }
}

/// A visit takes one node off the weight of the stack.
pub proof fn lemma_step_weight(tree: TreeView, state: IterView)
    requires
        tree.wf(),
        state.stack.len() > 0,
        state.within(tree),
    ensures
        state.stepped(tree).within(tree),
        stack_weight(tree, state.stepped(tree).stack) + 1 == stack_weight(tree, state.stack),
{
    let node = state.stack.last().3;
    let n = state.next_children(tree).len() as int;
    let pushed = state.pushed(tree);
    assert(tree.contains(state.stack[state.stack.len() - 1].3));
    assert(tree.node_wf(node));
    lemma_weight_pushed(tree, state, n);
    assert(pushed.take(n) == pushed);
    lemma_weight_joined(tree, state.stack.drop_last(), pushed);
    let after = state.stepped(tree).stack;
    assert forall|k: int| 0 <= k < after.len() implies tree.contains((#[trigger] after[k]).3) by {
        if k < state.stack.len() - 1 {
            assert(after[k] == state.stack[k]);
        } else {
            let i = k - (state.stack.len() - 1);
            assert(after[k] == pushed[i]);
            assert(pushed[i].3 == tree.children(node)[n - 1 - i]);
        }
    }
}

/// Visits the subtree below `root` in pre-order and returns its nodes, each
/// with the position that the traversal gives it.
pub fn traverse<G>(tree: &Tree<G>, root: NodeRef) -> (items: Vec<IterNode>) where
    G: UniqueGenerator<Output = NodeId>,

    requires
        tree.wf(),
        tree@.contains(root),
    ensures
        items@ == nodes_below(tree@, root),
        items@.len() == tree@.size_below(root),
        forall|k: int| 0 <= k < items@.len() ==> tree@.contains((#[trigger] items@[k]).handle()),
{
    let mut iter = NodeRefIter::new(root);
    let mut items: Vec<IterNode> = Vec::new();
    let ghost total = IterView::start(root).walk(tree@, tree@.size_below(root));
    proof {
        let start = IterView::start(root).stack;
        assert(start.drop_last() =~= Seq::empty());
        assert(stack_weight(tree@, start.drop_last()) == 0);
        assert(start.last().3 == root);
        assert(stack_weight(tree@, start) == tree@.size_below(root));
        assert(items@ + iter@.walk(tree@, stack_weight(tree@, iter@.stack)) =~= total);
    }
    while !iter.is_done()
        invariant
            tree.wf(),
            iter@.within(tree@),
            items@ + iter@.walk(tree@, stack_weight(tree@, iter@.stack)) == total,
            items@.len() + stack_weight(tree@, iter@.stack) == tree@.size_below(root),
            forall|k: int| 0 <= k < items@.len() ==> tree@.contains((#[trigger] items@[k]).handle()),
        decreases stack_weight(tree@, iter@.stack),
    {
        let ghost before = iter@;
        let ghost seen = items@;
        proof {
            lemma_step_weight(tree@, before);
            assert(tree@.contains(before.stack[before.stack.len() - 1].3));
        }
        match iter.next(tree) {
            Some(item) => {
                items.push(item);
                proof {
                    let w = stack_weight(tree@, before.stack);
                    assert(before.walk(tree@, w) == seq![item] + iter@.walk(tree@, (w - 1) as nat));
                    assert(items@ + iter@.walk(tree@, (w - 1) as nat) =~= seen + before.walk(tree@, w));
                }
            },
            None => {},
        }
    }
    proof {
        assert(iter@.walk(tree@, stack_weight(tree@, iter@.stack)) =~= Seq::<IterNode>::empty());
        assert(items@ + Seq::<IterNode>::empty() =~= items@);
        assert(stack_weight(tree@, iter@.stack) == 0);
    }
    items
}

} // verus!
