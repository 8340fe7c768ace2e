//! What holds of the pre-order traversal: it visits the nodes of the subtree
//! in pre-order, each of them once.

use super::{lemma_step_weight, lemma_weight_joined, nodes_below, stack_weight, IterNode, IterView};
use crate::noderef::NodeRef;
use crate::tree::model::TreeView;
use vstd::prelude::*;

verus! {

/// The handles of the nodes.
pub open spec fn handles(items: Seq<IterNode>) -> Seq<NodeRef> {
    items.map_values(|n: IterNode| n.handle())
}

// The subtrees below the nodes on the stack, each in pre-order, in the order
// in which the traversal gets to them.
spec fn stack_preorder(tree: TreeView, stack: Seq<(usize, usize, usize, NodeRef)>) -> Seq<NodeRef>
    decreases stack.len(),
{
    if stack.len() == 0 {
        Seq::empty()
    } else {
        tree.preorder(stack.last().3) + stack_preorder(tree, stack.drop_last())
    }
}

proof fn lemma_stack_preorder_joined(
    tree: TreeView,
    a: Seq<(usize, usize, usize, NodeRef)>,
    b: Seq<(usize, usize, usize, NodeRef)>,
)
    ensures
        stack_preorder(tree, a + b) == stack_preorder(tree, b) + stack_preorder(tree, a),
    decreases b.len(),
{
    if b.len() == 0 {
        assert(a + b == a);
        assert(stack_preorder(tree, b) + stack_preorder(tree, a) =~= stack_preorder(tree, a));
    } else {
        lemma_stack_preorder_joined(tree, a, b.drop_last());
        assert((a + b).drop_last() == a + b.drop_last());
        assert((a + b).last() == b.last());
        assert(tree.preorder(b.last().3) + (stack_preorder(tree, b.drop_last()) + stack_preorder(
            tree,
            a,
        )) =~= (tree.preorder(b.last().3) + stack_preorder(tree, b.drop_last())) + stack_preorder(
            tree,
            a,
        ));
    }
}

// The entries that a visit puts on the stack stand for the subtrees below
// the children of the visited node, in sibling order.
proof fn lemma_pushed_preorder(tree: TreeView, state: IterView, j: int)
    requires
        tree.wf(),
        state.stack.len() > 0,
        tree.contains(state.stack.last().3),
        0 <= j <= state.next_children(tree).len(),
    ensures
        tree.preorder_below(state.stack.last().3, state.next_children(tree).len() - j)
            + stack_preorder(tree, state.pushed(tree).take(j)) == tree.preorder_below(
            state.stack.last().3,
            state.next_children(tree).len() as int,
        ),
    decreases j,
{
    let node = state.stack.last().3;
    let n = state.next_children(tree).len() as int;
    let pushed = state.pushed(tree);
    if j > 0 {
        lemma_pushed_preorder(tree, state, j - 1);
        assert(pushed.take(j).drop_last() == pushed.take(j - 1));
        assert(pushed.take(j).last() == pushed[j - 1]);
        assert(pushed[j - 1].3 == tree.children(node)[n - j]);
        assert(tree.node_wf(node));
        let c = tree.children(node)[n - j];
        assert(tree.preorder_below(node, n - j + 1) == tree.preorder_below(node, n - j)
            + tree.preorder(c));
        assert(tree.preorder_below(node, n - j) + (tree.preorder(c) + stack_preorder(
            tree,
            pushed.take(j - 1),
        )) =~= (tree.preorder_below(node, n - j) + tree.preorder(c)) + stack_preorder(
            tree,
            pushed.take(j - 1),
        ));
    } else {
        assert(pushed.take(0) =~= Seq::empty());
        assert(tree.preorder_below(node, n) + Seq::<NodeRef>::empty() =~= tree.preorder_below(
            node,
            n,
        ));
    }
}

// A traversal visits the subtrees below the nodes on its stack, each in
// pre-order.
proof fn lemma_walk_preorder(tree: TreeView, state: IterView, steps: nat)
    requires
        tree.wf(),
        state.within(tree),
        steps == stack_weight(tree, state.stack),
    ensures
        handles(state.walk(tree, steps)) == stack_preorder(tree, state.stack),
    decreases steps,
{
    if state.stack.len() == 0 {
        assert(handles(state.walk(tree, steps)) =~= Seq::<NodeRef>::empty());
    } else {
        let node = state.stack.last().3;
        let n = state.next_children(tree).len() as int;
        let next = state.stepped(tree);
        assert(tree.contains(state.stack[state.stack.len() - 1].3));
        lemma_step_weight(tree, state);
        lemma_walk_preorder(tree, next, (steps - 1) as nat);
        lemma_stack_preorder_joined(tree, state.stack.drop_last(), state.pushed(tree));
        lemma_pushed_preorder(tree, state, n);
        assert(state.pushed(tree).take(n) == state.pushed(tree));
        assert(tree.preorder_below(node, 0) =~= Seq::<NodeRef>::empty());
        assert(stack_preorder(tree, state.pushed(tree)) =~= tree.preorder_below(node, n));
        let walk = state.walk(tree, steps);
        assert(walk == seq![state.item()] + next.walk(tree, (steps - 1) as nat));
        assert(handles(walk) =~= seq![node] + handles(next.walk(tree, (steps - 1) as nat)));
        assert(seq![node] + (tree.preorder_below(node, n) + stack_preorder(
            tree,
            state.stack.drop_last(),
        )) =~= (seq![node] + tree.preorder_below(node, n)) + stack_preorder(
            tree,
            state.stack.drop_last(),
        ));
    }
}

/// The traversal of the subtree below `root` visits its nodes in pre-order:
/// `root`, then the subtrees below its children, in sibling order. It visits
/// no node twice.
pub proof fn lemma_traversal_is_preorder(tree: TreeView, root: NodeRef)
    requires
        tree.wf(),
        tree.contains(root),
    ensures
        handles(nodes_below(tree, root)) == tree.preorder(root),
        handles(nodes_below(tree, root)).no_duplicates(),
{
    let start = IterView::start(root);
    assert(start.stack.drop_last() =~= Seq::empty());
    assert(stack_weight(tree, start.stack.drop_last()) == 0);
    assert(stack_preorder(tree, start.stack.drop_last()) =~= Seq::<NodeRef>::empty());
    assert(start.stack.last().3 == root);
    assert(stack_weight(tree, start.stack) == tree.size_below(root));
    lemma_walk_preorder(tree, start, tree.size_below(root));
    assert(stack_preorder(tree, start.stack) =~= tree.preorder(root));
    tree.lemma_preorder_no_duplicates(root);
}

} // verus!
