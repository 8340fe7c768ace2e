//! The diff engine: what has to be done to one tree to make it a structural
//! copy of another, and the patch that does it.

pub mod laws;

use crate::edit::laws::lemma_edit_script_in_range;
use crate::edit::{edit_script, vec_edits, Edit};
use crate::hash::data_hash;
use crate::id::UniqueGenerator;
use crate::noderef::NodeRef;
use crate::tree::indexed::IndexedTree;
use crate::tree::model::TreeView;
use crate::tree::Tree;
use crate::NodeId;
use vstd::prelude::*;

verus! {

/// One operation of a patch. `dest` is a node of the tree that is patched,
/// `source` and `nodes` are nodes of the tree that it is made alike.
#[derive(Debug, Clone)]
pub enum TreePatchOperation {
    InsertChild { dest: NodeRef, index: usize, source: NodeRef },
    DeleteChild { dest: NodeRef, index: usize },
    ReplaceChild { dest: NodeRef, index: usize, source: NodeRef },
    RemoveChildren { dest: NodeRef },
    SetChildren { dest: NodeRef, nodes: Vec<NodeRef> },
    ReplaceNode { dest: NodeRef, source: NodeRef },
}

/// An operation of a patch, as plain values.
pub enum OpView {
    InsertChild { dest: NodeRef, index: usize, source: NodeRef },
    DeleteChild { dest: NodeRef, index: usize },
    ReplaceChild { dest: NodeRef, index: usize, source: NodeRef },
    RemoveChildren { dest: NodeRef },
    SetChildren { dest: NodeRef, nodes: Seq<NodeRef> },
    ReplaceNode { dest: NodeRef, source: NodeRef },
}

impl OpView {
    /// The node of the patched tree that the operation changes.
    pub open spec fn dest(self) -> NodeRef {
        match self {
            OpView::InsertChild { dest, .. } => dest,
            OpView::DeleteChild { dest, .. } => dest,
            OpView::ReplaceChild { dest, .. } => dest,
            OpView::RemoveChildren { dest } => dest,
            OpView::SetChildren { dest, .. } => dest,
            OpView::ReplaceNode { dest, .. } => dest,
        }
    }
}

impl View for TreePatchOperation {
    type V = OpView;

    open spec fn view(&self) -> OpView {
        match *self {
            TreePatchOperation::InsertChild { dest, index, source } => OpView::InsertChild {
                dest,
                index,
                source,
            },
            TreePatchOperation::DeleteChild { dest, index } => OpView::DeleteChild { dest, index },
            TreePatchOperation::ReplaceChild { dest, index, source } => OpView::ReplaceChild {
                dest,
                index,
                source,
            },
            TreePatchOperation::RemoveChildren { dest } => OpView::RemoveChildren { dest },
            TreePatchOperation::SetChildren { dest, nodes } => OpView::SetChildren {
                dest,
                nodes: nodes@,
            },
            TreePatchOperation::ReplaceNode { dest, source } => OpView::ReplaceNode { dest, source },
        }
    }
}

/// The operations as plain values.
pub open spec fn ops_view(ops: Seq<TreePatchOperation>) -> Seq<OpView> {
    ops.map_values(|op: TreePatchOperation| op@)
}

/// The operation on the children of `dest` that an edit of their hash list
/// stands for.
pub open spec fn edit_op(dest: NodeRef, source_children: Seq<NodeRef>, edit: Edit) -> OpView {
    match edit {
        Edit::Delete { dest_index } => OpView::DeleteChild { dest, index: dest_index },
        Edit::Replace { dest_index, source_index } => OpView::ReplaceChild {
            dest,
            index: dest_index,
            source: source_children[source_index as int],
        },
        Edit::Insert { dest_index, source_index } => OpView::InsertChild {
            dest,
            index: dest_index,
            source: source_children[source_index as int],
        },
    }
}

/// The operations that make the child list of `d` like that of `s`: the edit
/// script between the lists of the children's subtree hashes, edit by edit.
pub open spec fn children_diff(dest: TreeView, d: NodeRef, source: TreeView, s: NodeRef) -> Seq<
    OpView,
> {
    edit_script(dest.child_hashes(d), source.child_hashes(s)).map_values(
        |e: Edit| edit_op(d, source.children(s), e),
    )
}

/// The children at `k` of `d` and `s` have different subtree hashes.
pub open spec fn differs_at(dest: TreeView, d: NodeRef, source: TreeView, s: NodeRef, k: int) -> bool {
    dest.hash(dest.children(d)[k]) != source.hash(source.children(s)[k])
}

/// The child at `k` of `s` has the subtree hash of `d` itself: a node was
/// put between `d` and what was below it.
pub open spec fn wraps_at(dest: TreeView, d: NodeRef, source: TreeView, s: NodeRef, k: int) -> bool {
    source.hash(source.children(s)[k]) == dest.hash(d)
}

/// The children at `k` of `d` and `s` are compared on their own.
pub open spec fn descends_at(dest: TreeView, d: NodeRef, source: TreeView, s: NodeRef, k: int) -> bool {
    &&& differs_at(dest, d, source, s, k)
    &&& !wraps_at(dest, d, source, s, k)
    &&& d.at() < dest.children(d)[k].at() < dest.nodes.len()
}

/// The two operations that give `d` the children and the data of `s`.
pub open spec fn wrap_ops(d: NodeRef, source: TreeView, s: NodeRef) -> Seq<OpView> {
    seq![
        OpView::SetChildren { dest: d, nodes: source.children(s) },
        OpView::ReplaceNode { dest: d, source: s },
    ]
}

/// The operations on `d` itself that the first `k` pairs of children of `d`
/// and `s` call for.
pub open spec fn wraps_diff(dest: TreeView, d: NodeRef, source: TreeView, s: NodeRef, k: int) -> Seq<
    OpView,
>
    decreases k,
{
    if k <= 0 {
        Seq::empty()
    } else {
        wraps_diff(dest, d, source, s, k - 1) + if differs_at(dest, d, source, s, k - 1)
            && wraps_at(dest, d, source, s, k - 1) {
            wrap_ops(d, source, s)
        } else {
            Seq::empty()
        }
    }
}

/// What is reported for the pair of nodes `d` and `s` themselves, before
/// their children are looked at: a replacement of the data of `d`, where the
/// hashes of the data differ.
pub open spec fn data_diff(dest: TreeView, d: NodeRef, source: TreeView, s: NodeRef) -> Seq<OpView> {
    if data_hash(source.node(s).data) != data_hash(dest.node(d).data) {
        seq![OpView::ReplaceNode { dest: d, source: s }]
    } else {
        Seq::empty()
    }
}

/// The children of `d` and `s` are compared pair by pair: the subtree hashes
/// of the two nodes differ, both have a child list, of the same length, and
/// the lists of child hashes differ.
pub open spec fn pairs_compared(dest: TreeView, d: NodeRef, source: TreeView, s: NodeRef) -> bool {
    &&& dest.hash(d) != source.hash(s)
    &&& !dest.is_leaf(d)
    &&& !source.is_leaf(s)
    &&& dest.child_hashes(d) != source.child_hashes(s)
    &&& dest.children(d).len() == source.children(s).len()
}

/// What the comparison of the pair of nodes `d` and `s` reports at once.
///
/// Equal subtree hashes: nothing. Else, first a replacement of the data where
/// the data hashes differ. Then, by the child lists: none on either side, the
/// edit script between the child lists of the two parents, if both nodes have
/// a parent; one on the source side only, the children and the data are set;
/// one on the destination side only, the children are removed; one on either
/// side, nothing if the lists of child hashes are equal, the edit script
/// between them if they differ in length, and else what the wrapped pairs of
/// children call for.
pub open spec fn pair_diff(dest: TreeView, d: NodeRef, source: TreeView, s: NodeRef) -> Seq<OpView> {
    if dest.hash(d) == source.hash(s) {
        Seq::empty()
    } else {
        data_diff(dest, d, source, s) + if dest.is_leaf(d) && source.is_leaf(s) {
            if dest.node(d).parent is Some && source.node(s).parent is Some {
                children_diff(dest, dest.node(d).parent->0, source, source.node(s).parent->0)
            } else {
                Seq::empty()
            }
        } else if dest.is_leaf(d) {
            wrap_ops(d, source, s)
        } else if source.is_leaf(s) {
            seq![OpView::RemoveChildren { dest: d }]
        } else if dest.child_hashes(d) == source.child_hashes(s) {
            Seq::empty()
        } else if dest.children(d).len() == source.children(s).len() {
            wraps_diff(dest, d, source, s, dest.children(d).len() as int)
        } else {
            children_diff(dest, d, source, s)
        }
    }
}

/// The patch for the pair of nodes `d` of `dest` and `s` of `source`: what
/// their comparison reports at once, followed, where their children are
/// compared pair by pair, by the patches of the pairs of children that are
/// compared on their own, last pair first.
pub open spec fn diff_of(dest: TreeView, d: NodeRef, source: TreeView, s: NodeRef) -> Seq<OpView>
    decreases dest.nodes.len() - d.at(), 1int, 0int,
{
    pair_diff(dest, d, source, s) + if pairs_compared(dest, d, source, s) {
        diff_below(dest, d, source, s, dest.children(d).len() as int)
    } else {
        Seq::empty()
    }
}

/// The patches of those of the first `k` pairs of children of `d` and `s`
/// that are compared on their own, last pair first.
pub open spec fn diff_below(dest: TreeView, d: NodeRef, source: TreeView, s: NodeRef, k: int) -> Seq<
    OpView,
>
    decreases dest.nodes.len() - d.at(), 0int, k,
{
    if k <= 0 {
        Seq::empty()
    } else {
        (if descends_at(dest, d, source, s, k - 1) {
            diff_of(dest, dest.children(d)[k - 1], source, source.children(s)[k - 1])
        } else {
            Seq::empty()
        }) + diff_below(dest, d, source, s, k - 1)
    }
}

/// The number of pairs of nodes that are compared for the pair `d` and `s`,
/// the pair itself counted.
pub open spec fn diff_pairs(dest: TreeView, d: NodeRef, source: TreeView, s: NodeRef) -> nat
    decreases dest.nodes.len() - d.at(), 1int, 0int,
{
    1 + if pairs_compared(dest, d, source, s) {
        pairs_below(dest, d, source, s, dest.children(d).len() as int)
    } else {
        0
    }
}

/// The number of pairs of nodes that are compared for the first `k` pairs of
/// children of `d` and `s`.
pub open spec fn pairs_below(dest: TreeView, d: NodeRef, source: TreeView, s: NodeRef, k: int) -> nat
    decreases dest.nodes.len() - d.at(), 0int, k,
{
    if k <= 0 {
        0
    } else {
        (if descends_at(dest, d, source, s, k - 1) {
            diff_pairs(dest, dest.children(d)[k - 1], source, source.children(s)[k - 1])
        } else {
            0
        }) + pairs_below(dest, d, source, s, k - 1)
    }
}

// The patches of the pairs on the work stack, in the order in which they are
// taken from it.
spec fn stack_diff(dest: TreeView, source: TreeView, stack: Seq<(NodeRef, NodeRef)>) -> Seq<OpView>
    decreases stack.len(),
{
    if stack.len() == 0 {
        Seq::empty()
    } else {
        diff_of(dest, stack.last().0, source, stack.last().1) + stack_diff(
            dest,
            source,
            stack.drop_last(),
        )
    }
}

// The number of pairs that are still to be compared for the work stack.
spec fn stack_pairs(dest: TreeView, source: TreeView, stack: Seq<(NodeRef, NodeRef)>) -> nat
    decreases stack.len(),
{
    if stack.len() == 0 {
        0
    } else {
        diff_pairs(dest, stack.last().0, source, stack.last().1) + stack_pairs(
            dest,
            source,
            stack.drop_last(),
        )
    }
}

proof fn lemma_stack_push(dest: TreeView, source: TreeView, stack: Seq<(NodeRef, NodeRef)>, d: NodeRef, s: NodeRef)
    ensures
        stack_diff(dest, source, stack.push((d, s))) == diff_of(dest, d, source, s) + stack_diff(
            dest,
            source,
            stack,
        ),
        stack_pairs(dest, source, stack.push((d, s))) == diff_pairs(dest, d, source, s)
            + stack_pairs(dest, source, stack),
{
    assert(stack.push((d, s)).drop_last() == stack);
    assert(stack.push((d, s)).last() == (d, s));
}

/// A patch: operations, in the order in which they are to be applied.
#[derive(Debug)]
pub struct TreePatch {
    patches: Vec<TreePatchOperation>,
}

impl View for TreePatch {
    type V = Seq<OpView>;

    closed spec fn view(&self) -> Seq<OpView> {
        ops_view(self.patches@)
    }
}

impl TreePatch {
    /// A patch of the given operations.
    pub fn new(patches: Vec<TreePatchOperation>) -> (patch: Self)
        ensures
            patch@ == ops_view(patches@),
    {
        TreePatch { patches }
    }

    /// The number of operations.
    pub fn len(&self) -> (n: usize)
        ensures
            n == self@.len(),
    {
        self.patches.len()
    }

    /// The operations of the patch.
    pub fn operations(&self) -> (ops: &Vec<TreePatchOperation>)
        ensures
            ops_view(ops@) == self@,
    {
        &self.patches
    }
}

/// The two subtrees that a [`TreeDiff`] compares.
pub struct DiffView {
    pub dest: TreeView,
    pub dest_node: NodeRef,
    pub source: TreeView,
    pub source_node: NodeRef,
}

/// A comparison of a subtree of a destination tree with a subtree of a
/// source tree.
pub struct TreeDiff<'a, G = crate::IdGenerator> where G: UniqueGenerator<Output = NodeId> {
    dest_tree: &'a Tree<G>,
    dest_node: NodeRef,
    source_tree: &'a Tree<G>,
    source_node: NodeRef,
}

impl<'a, G> View for TreeDiff<'a, G> where G: UniqueGenerator<Output = NodeId> {
    type V = DiffView;

    closed spec fn view(&self) -> DiffView {
        DiffView {
            dest: self.dest_tree@,
            dest_node: self.dest_node,
            source: self.source_tree@,
            source_node: self.source_node,
        }
    }
}

// Whether two lists hold the same words.
fn same_words(a: &Vec<u64>, b: &Vec<u64>) -> (same: bool)
    ensures
        same == (a@ == b@),
{
    if a.len() != b.len() {
        return false;
    }
    let mut k: usize = 0;
    while k < a.len()
        invariant
            k <= a.len(),
            a.len() == b.len(),
            forall|j: int| 0 <= j < k ==> a@[j] == b@[j],
        decreases a.len() - k,
    {
        if a[k] != b[k] {
            return false;
        }
        k += 1;
    }
    proof {
        assert(a@ =~= b@);
    }
    true
}

impl<'a, G> TreeDiff<'a, G> where G: UniqueGenerator<Output = NodeId> {
    /// A comparison of the subtree below `dest_node` in `dest_tree` with the
    /// subtree below `source_node` in `source_tree`.
    pub fn new(dest_tree: &'a Tree<G>, dest_node: NodeRef, source_tree: &'a Tree<G>, source_node: NodeRef) -> (diff:
        Self)
        ensures
            diff@ == (DiffView {
                dest: dest_tree@,
                dest_node,
                source: source_tree@,
                source_node,
            }),
    {
        TreeDiff { dest_tree, dest_node, source_tree, source_node }
    }

    /// Computes the patch that makes the destination subtree like the source
    /// subtree.
    pub fn diff(&self) -> (patch: TreePatch)
        requires
            self@.dest.wf(),
            self@.source.wf(),
            self@.dest.contains(self@.dest_node),
            self@.source.contains(self@.source_node),
        ensures
            patch@ == diff_of(self@.dest, self@.dest_node, self@.source, self@.source_node),
            self@.dest.hash(self@.dest_node) == self@.source.hash(self@.source_node) ==> patch@.len()
                == 0,
    {
        let dest_tree = self.dest_tree;
        let source_tree = self.source_tree;
        let ghost dv = dest_tree@;
        let ghost sv = source_tree@;
        let ghost total = diff_of(dv, self.dest_node, sv, self.source_node);
        let mut patches: Vec<TreePatchOperation> = Vec::new();

        // Stack of pending pairs of nodes to compare.
        let mut stack: Vec<(NodeRef, NodeRef)> = Vec::new();
        stack.push((self.dest_node, self.source_node));
        proof {
            lemma_stack_push(dv, sv, Seq::empty(), self.dest_node, self.source_node);
            assert(stack@ == Seq::<(NodeRef, NodeRef)>::empty().push((self.dest_node, self.source_node)));
            assert(ops_view(patches@) =~= Seq::<OpView>::empty());
            assert(ops_view(patches@) + stack_diff(dv, sv, stack@) =~= total);
        }
        while stack.len() > 0
            invariant
                dv == dest_tree@,
                sv == source_tree@,
                dv.wf(),
                sv.wf(),
                stack_within(dv, sv, stack@),
                ops_view(patches@) + stack_diff(dv, sv, stack@) == total,
            decreases stack_pairs(dv, sv, stack@),
        {
            let ghost before = stack@;
            let ghost done = ops_view(patches@);
            let (dest, source) = match stack.pop() {
                Some(pair) => pair,
                None => (self.dest_node, self.source_node),
            };
            let ghost rest = stack@;
            proof {
                assert(before.last() == (dest, source));
                assert(before.drop_last() == rest);
                assert(dv.contains(before[before.len() - 1].0));
                assert forall|k: int| 0 <= k < rest.len() implies dv.contains((#[trigger] rest[k]).0)
                    && sv.contains(rest[k].1) by {
                    assert(rest[k] == before[k]);
                }
            }
            diff_pair(dest_tree, dest, source_tree, source, &mut patches, &mut stack);
            proof {
                let now = pair_diff(dv, dest, sv, source);
                let later = if pairs_compared(dv, dest, sv, source) {
                    diff_below(dv, dest, sv, source, dv.children(dest).len() as int)
                } else {
                    Seq::empty()
                };
                assert(ops_view(patches@) + stack_diff(dv, sv, stack@) =~= done + ((now + later)
                    + stack_diff(dv, sv, rest)));
            }
        }
        proof {
            assert(stack_diff(dv, sv, stack@) =~= Seq::<OpView>::empty());
            assert(ops_view(patches@) =~= total);
            if dv.hash(self.dest_node) == sv.hash(self.source_node) {
                assert(total =~= Seq::<OpView>::empty());
            }
        }
        TreePatch::new(patches)
    }
}

// Every pair on the work stack is a pair of nodes of the two trees.
spec fn stack_within(dest: TreeView, source: TreeView, stack: Seq<(NodeRef, NodeRef)>) -> bool {
    forall|k: int|
        0 <= k < stack.len() ==> dest.contains((#[trigger] stack[k]).0) && source.contains(stack[k].1)
}

// Compares one pair of nodes: reports what is to be reported at once, and
// puts the pairs of children that are to be compared on their own on the
// work stack.
fn diff_pair<G>(
    dest_tree: &Tree<G>,
    dest: NodeRef,
    source_tree: &Tree<G>,
    source: NodeRef,
    patches: &mut Vec<TreePatchOperation>,
    stack: &mut Vec<(NodeRef, NodeRef)>,
) where G: UniqueGenerator<Output = NodeId>
    requires
        dest_tree.wf(),
        source_tree.wf(),
        dest_tree@.contains(dest),
        source_tree@.contains(source),
        stack_within(dest_tree@, source_tree@, old(stack)@),
    ensures
        stack_within(dest_tree@, source_tree@, final(stack)@),
        ops_view(final(patches)@) == ops_view(old(patches)@) + pair_diff(
            dest_tree@,
            dest,
            source_tree@,
            source,
        ),
        stack_diff(dest_tree@, source_tree@, final(stack)@) == (if pairs_compared(
            dest_tree@,
            dest,
            source_tree@,
            source,
        ) {
            diff_below(
                dest_tree@,
                dest,
                source_tree@,
                source,
                dest_tree@.children(dest).len() as int,
            )
        } else {
            Seq::empty()
        }) + stack_diff(dest_tree@, source_tree@, old(stack)@),
        stack_pairs(dest_tree@, source_tree@, final(stack)@) + 1 == diff_pairs(
            dest_tree@,
            dest,
            source_tree@,
            source,
        ) + stack_pairs(dest_tree@, source_tree@, old(stack)@),
{
    let ghost dv = dest_tree@;
    let ghost sv = source_tree@;
    let ghost done = ops_view(patches@);
    let ghost rest = stack@;
    proof {
        assert(Seq::<OpView>::empty() + stack_diff(dv, sv, rest) =~= stack_diff(dv, sv, rest));
        assert(done + Seq::<OpView>::empty() =~= done);
    }
    let dhash = dest_tree.node(dest).get_subtree_hash();
    let shash = source_tree.node(source).get_subtree_hash();

    // Only consider nodes which have mismatched subtree hashes.
    if dhash == shash {
        return ;
    }
    // If the data hashes don't match, issue a ReplaceNode op.
    if source_tree.node(source).data_xxhash() != dest_tree.node(dest).data_xxhash() {
        patches.push(TreePatchOperation::ReplaceNode { dest, source });
    }
    proof {
        assert(ops_view(patches@) =~= done + data_diff(dv, dest, sv, source));
    }
    let ghost headed = ops_view(patches@);
    let ghost head = data_diff(dv, dest, sv, source);
    let dest_leaf = !dest_tree.has_children(dest);
    let source_leaf = !source_tree.has_children(source);
    if dest_leaf && source_leaf {
        // Leaves: the difference lies with the parents.
        proof {
            assert(dv.node_wf(dest));
            assert(sv.node_wf(source));
        }
        match (dest_tree.node(dest).parent(), source_tree.node(source).parent()) {
            (Some(dest_parent), Some(source_parent)) => {
                let mut more = diff_children(dest_tree, dest_parent, source_tree, source_parent);
                let ghost added = ops_view(more@);
                let ghost earlier = patches@;
                let ghost extra = more@;
                patches.append(&mut more);
                proof {
                    assert(ops_view(earlier + extra) =~= ops_view(earlier) + ops_view(extra));
                    assert(done + (head + added) =~= (done + head) + added);
                }
            },
            _ => {
                proof {
                    assert(done + (head + Seq::<OpView>::empty()) =~= done + head);
                }
            },
        }
    } else if dest_leaf {
        // Only source has children. Adding all source children to dest.
        let children = source_tree.children_of(source);
        patches.push(TreePatchOperation::SetChildren { dest, nodes: children });
        patches.push(TreePatchOperation::ReplaceNode { dest, source });
        proof {
            assert(ops_view(patches@) =~= headed + wrap_ops(dest, sv, source));
            assert(done + (head + wrap_ops(dest, sv, source)) =~= (done + head) + wrap_ops(
                dest,
                sv,
                source,
            ));
        }
    } else if source_leaf {
        // Only dest has children. Removing all children from dest.
        patches.push(TreePatchOperation::RemoveChildren { dest });
        proof {
            let one = seq![OpView::RemoveChildren { dest }];
            assert(ops_view(patches@) =~= headed + one);
            assert(done + (head + one) =~= (done + head) + one);
        }
    } else {
        let dest_child_hashes = dest_tree.child_hashes(dest);
        let source_child_hashes = source_tree.child_hashes(source);
        if same_words(&dest_child_hashes, &source_child_hashes) {
            // Child hashes are identical. Parent mismatch.
            proof {
                assert(done + (head + Seq::<OpView>::empty()) =~= done + head);
            }
        } else if dest_child_hashes.len() == source_child_hashes.len() {
            compare_pairs(dest_tree, dest, source_tree, source, patches, stack);
            proof {
                let wraps = wraps_diff(dv, dest, sv, source, dv.children(dest).len() as int);
                assert(done + (head + wraps) =~= (done + head) + wraps);
            }
        } else {
            // Child length mismatch.
            let mut more = diff_children(dest_tree, dest, source_tree, source);
            let ghost added = ops_view(more@);
            let ghost earlier = patches@;
            let ghost extra = more@;
            patches.append(&mut more);
            proof {
                assert(ops_view(earlier + extra) =~= ops_view(earlier) + ops_view(extra));
                assert(done + (head + added) =~= (done + head) + added);
            }
        }
    }
}

// Compares the children of two nodes pair by pair: a pair with different
// subtree hashes is reported as a wrapping where the source child has the
// subtree hash of the destination node itself, and is else put on the work
// stack.
fn compare_pairs<G>(
    dest_tree: &Tree<G>,
    dest: NodeRef,
    source_tree: &Tree<G>,
    source: NodeRef,
    patches: &mut Vec<TreePatchOperation>,
    stack: &mut Vec<(NodeRef, NodeRef)>,
) where G: UniqueGenerator<Output = NodeId>
    requires
        dest_tree.wf(),
        source_tree.wf(),
        dest_tree@.contains(dest),
        source_tree@.contains(source),
        dest_tree@.children(dest).len() == source_tree@.children(source).len(),
        stack_within(dest_tree@, source_tree@, old(stack)@),
    ensures
        stack_within(dest_tree@, source_tree@, final(stack)@),
        ops_view(final(patches)@) == ops_view(old(patches)@) + wraps_diff(
            dest_tree@,
            dest,
            source_tree@,
            source,
            dest_tree@.children(dest).len() as int,
        ),
        stack_diff(dest_tree@, source_tree@, final(stack)@) == diff_below(
            dest_tree@,
            dest,
            source_tree@,
            source,
            dest_tree@.children(dest).len() as int,
        ) + stack_diff(dest_tree@, source_tree@, old(stack)@),
        stack_pairs(dest_tree@, source_tree@, final(stack)@) == pairs_below(
            dest_tree@,
            dest,
            source_tree@,
            source,
            dest_tree@.children(dest).len() as int,
        ) + stack_pairs(dest_tree@, source_tree@, old(stack)@),
{
    let ghost dv = dest_tree@;
    let ghost sv = source_tree@;
    let ghost headed = ops_view(patches@);
    let ghost rest = stack@;
    let dhash = dest_tree.node(dest).get_subtree_hash();
    let n: usize = dest_tree.node(dest).num_children();
    let mut k: usize = 0;
    proof {
        assert(stack_diff(dv, sv, stack@) =~= diff_below(dv, dest, sv, source, 0) + stack_diff(
            dv,
            sv,
            rest,
        ));
        assert(ops_view(patches@) =~= headed + wraps_diff(dv, dest, sv, source, 0));
        assert(dv.node_wf(dest));
        assert(sv.node_wf(source));
    }
    while k < n
        invariant
            k <= n,
            dv == dest_tree@,
            sv == source_tree@,
            dv.wf(),
            sv.wf(),
            dv.contains(dest),
            sv.contains(source),
            dv.node_wf(dest),
            sv.node_wf(source),
            n == dv.children(dest).len(),
            n == sv.children(source).len(),
            dhash == dv.hash(dest),
            stack_within(dv, sv, stack@),
            ops_view(patches@) == headed + wraps_diff(dv, dest, sv, source, k as int),
            stack_diff(dv, sv, stack@) == diff_below(dv, dest, sv, source, k as int) + stack_diff(
                dv,
                sv,
                rest,
            ),
            stack_pairs(dv, sv, stack@) == pairs_below(dv, dest, sv, source, k as int)
                + stack_pairs(dv, sv, rest),
        decreases n - k,
    {
        let dest_child = dest_tree.child(dest, k);
        let source_child = source_tree.child(source, k);
        let ghost so_far = ops_view(patches@);
        let ghost pending = stack@;
        let ghost wraps = wraps_diff(dv, dest, sv, source, k as int);
        let ghost below = diff_below(dv, dest, sv, source, k as int);
        proof {
            assert(dv.children(dest)[k as int] == dest_child);
            assert(sv.children(source)[k as int] == source_child);
            assert(dv.contains(dest_child));
            assert(sv.contains(source_child));
        }
        let dest_child_hash = dest_tree.node(dest_child).get_subtree_hash();
        let source_child_hash = source_tree.node(source_child).get_subtree_hash();
        if dest_child_hash != source_child_hash {
            // Check if this child subtree matches the destination subtree.
            if source_child_hash == dhash {
                let children = source_tree.children_of(source);
                patches.push(TreePatchOperation::SetChildren { dest, nodes: children });
                patches.push(TreePatchOperation::ReplaceNode { dest, source });
                proof {
                    let two = wrap_ops(dest, sv, source);
                    assert(ops_view(patches@) =~= so_far + two);
                    assert(headed + (wraps + two) =~= (headed + wraps) + two);
                    assert(Seq::<OpView>::empty() + below =~= below);
                }
            } else {
                stack.push((dest_child, source_child));
                proof {
                    lemma_stack_push(dv, sv, pending, dest_child, source_child);
                    assert(descends_at(dv, dest, sv, source, k as int));
                    let sub = diff_of(dv, dest_child, sv, source_child);
                    assert(sub + (below + stack_diff(dv, sv, rest)) =~= (sub + below) + stack_diff(
                        dv,
                        sv,
                        rest,
                    ));
                    assert(wraps + Seq::<OpView>::empty() =~= wraps);
                    assert forall|j: int| 0 <= j < stack@.len() implies dv.contains(
                        (#[trigger] stack@[j]).0,
                    ) && sv.contains(stack@[j].1) by {
                        if j < pending.len() {
                            assert(stack@[j] == pending[j]);
                        }
                    }
                }
            }
        } else {
            proof {
                assert(wraps + Seq::<OpView>::empty() =~= wraps);
                assert(Seq::<OpView>::empty() + below =~= below);
            }
        }
        k += 1;
    }
}

// The operations that make the child list of `dest` like that of `source`.
fn diff_children<G>(dest_tree: &Tree<G>, dest: NodeRef, source_tree: &Tree<G>, source: NodeRef) -> (patches:
    Vec<TreePatchOperation>) where G: UniqueGenerator<Output = NodeId>
    requires
        dest_tree.wf(),
        source_tree.wf(),
        dest_tree@.contains(dest),
        source_tree@.contains(source),
    ensures
        ops_view(patches@) == children_diff(dest_tree@, dest, source_tree@, source),
{
    let mut patches: Vec<TreePatchOperation> = Vec::new();
    let dest_child_hashes = dest_tree.child_hashes(dest);
    let source_child_hashes = source_tree.child_hashes(source);

    // Get the edits between the lists of child hashes.
    let edits = vec_edits(&dest_child_hashes, &source_child_hashes);
    let _ = dest_child_hashes.len();
    let _ = source_child_hashes.len();
    proof {
        lemma_edit_script_in_range(dest_child_hashes@, source_child_hashes@);
    }
    let ghost wanted = children_diff(dest_tree@, dest, source_tree@, source);
    let mut k: usize = 0;
    while k < edits.len()
        invariant
            k <= edits.len(),
            source_tree@.contains(source),
            edits@ == edit_script(dest_tree@.child_hashes(dest), source_tree@.child_hashes(source)),
            forall|j: int|
                0 <= j < edits@.len() ==> (#[trigger] edits@[j]).fits(
                    dest_tree@.child_hashes(dest).len() as int,
                    source_tree@.child_hashes(source).len() as int,
                ),
            wanted == children_diff(dest_tree@, dest, source_tree@, source),
            ops_view(patches@) == wanted.take(k as int),
        decreases edits.len() - k,
    {
        proof {
            assert(edits@[k as int].fits(
                dest_tree@.child_hashes(dest).len() as int,
                source_tree@.child_hashes(source).len() as int,
            ));
        }
        let patch = match edits[k] {
            Edit::Delete { dest_index } => TreePatchOperation::DeleteChild {
                dest,
                index: dest_index,
            },
            Edit::Replace { dest_index, source_index } => TreePatchOperation::ReplaceChild {
                dest,
                index: dest_index,
                source: source_tree.child(source, source_index),
            },
            Edit::Insert { dest_index, source_index } => TreePatchOperation::InsertChild {
                dest,
                index: dest_index,
                source: source_tree.child(source, source_index),
            },
        };
        let ghost before = patches@;
        proof {
            assert(wanted.len() == edits@.len());
            assert(wanted[k as int] == edit_op(dest, source_tree@.children(source), edits@[k as int]));
            assert(patch@ == wanted[k as int]);
        }
        patches.push(patch);
        proof {
            assert(ops_view(before.push(patch)) =~= ops_view(before).push(patch@));
            assert(wanted.take(k + 1) =~= wanted.take(k as int).push(wanted[k as int]));
        }
        k += 1;
    }
    proof {
        assert(wanted.take(k as int) == wanted);
    }
    patches
}

/// `mid` is `before` after the change that the operation asks for, with
/// copies taken from `source`. An operation that names no node, or no child,
/// changes nothing.
pub open spec fn op_changes(before: TreeView, mid: TreeView, op: OpView, source: TreeView) -> bool {
    match op {
        OpView::InsertChild { dest, index, source: from } => if before.contains(dest)
            && source.contains(from) && index <= before.children(dest).len() {
            before.grafted(mid, dest, index as int, source, from)
        } else {
            mid == before
        },
        OpView::DeleteChild { dest, index } => mid == if before.contains(dest) && index
            < before.children(dest).len() {
            before.disown(dest, index as int)
        } else {
            before
        },
        OpView::ReplaceChild { dest, index, source: from } => if before.contains(dest)
            && source.contains(from) && index < before.children(dest).len() {
            before.regrafted(mid, dest, index as int, source, from)
        } else {
            mid == before
        },
        OpView::RemoveChildren { dest } => mid == if before.contains(dest) {
            before.abandon(dest)
        } else {
            before
        },
        OpView::SetChildren { dest, nodes } => if before.contains(dest) && (forall|k: int|
            0 <= k < nodes.len() ==> source.contains(#[trigger] nodes[k])) {
            before.restocked(mid, dest, source, nodes)
        } else {
            mid == before
        },
        OpView::ReplaceNode { dest, source: from } => mid == if before.contains(dest)
            && source.contains(from) {
            before.with_data(dest, source.node(from).data)
        } else {
            before
        },
    }
}

/// `after` is `before` after the operation was applied: the change was
/// made, and then the cached hashes were made anew from the changed node up.
pub open spec fn op_applied(before: TreeView, after: TreeView, op: OpView, source: TreeView) -> bool {
    exists|mid: TreeView|
        {
            &&& #[trigger] op_changes(before, mid, op, source)
            &&& mid.wf()
            &&& after.wf()
            &&& if mid.contains(op.dest()) {
                mid.rehashed_from(after, op.dest())
            } else {
                after == mid
            }
        }
}

/// The trees `states` are what a tree is before, between and after the
/// operations, applied first to last.
pub open spec fn patch_steps(states: Seq<TreeView>, ops: Seq<OpView>, source: TreeView) -> bool {
    &&& states.len() == ops.len() + 1
    &&& forall|k: int|
        0 <= k < ops.len() ==> op_applied(#[trigger] states[k], states[k + 1], ops[k], source)
}

/// `after` is `before` after the operations were applied, first to last.
pub open spec fn patch_applied(before: TreeView, after: TreeView, ops: Seq<OpView>, source: TreeView) -> bool {
    exists|states: Seq<TreeView>|
        #[trigger] patch_steps(states, ops, source) && states[0] == before && states.last() == after
}

/// Applies one operation of a patch to `tree`, taking copies from `source`,
/// and makes the cached hashes anew from the changed node up.
pub fn apply_operation<G>(tree: &mut Tree<G>, source: &Tree<G>, op: &TreePatchOperation) where
    G: UniqueGenerator<Output = NodeId>,

    requires
        old(tree).wf(),
        source.wf(),
        old(tree)@.has_generator,
    ensures
        final(tree).wf(),
        final(tree)@.has_generator,
        final(tree)@.nodes.len() >= old(tree)@.nodes.len(),
        final(tree)@.root == old(tree)@.root,
        op_applied(old(tree)@, final(tree)@, op@, source@),
        old(tree)@.hashed() && source@.hashed() ==> final(tree)@.hashed(),
{
    let ghost before = tree@;
    match op {
        TreePatchOperation::InsertChild { dest, index, source: from } => {
            let _ = tree.insert_subtree(*dest, *index, source, *from);
        },
        TreePatchOperation::DeleteChild { dest, index } => {
            let _ = tree.remove_child(*dest, *index);
            proof {
                if before.contains(*dest) && *index < before.children(*dest).len() && before.hashed() {
                    before.lemma_disown_hashed_but(*dest, *index as int);
                }
            }
        },
        TreePatchOperation::ReplaceChild { dest, index, source: from } => {
            tree.replace_child(*dest, *index, source, *from);
        },
        TreePatchOperation::RemoveChildren { dest } => {
            tree.remove_children(*dest);
            proof {
                if before.contains(*dest) {
                    before.lemma_abandon_wf(*dest);
                    if before.hashed() {
                        before.lemma_abandon_hashed_but(*dest);
                    }
                }
            }
        },
        TreePatchOperation::SetChildren { dest, nodes } => {
            tree.set_children(*dest, source, nodes.clone());
        },
        TreePatchOperation::ReplaceNode { dest, source: from } => {
            tree.replace_node(*dest, source, *from);
            proof {
                if before.contains(*dest) && source@.contains(*from) && before.hashed() {
                    before.lemma_with_data_hashed_but(*dest, source@.node(*from).data);
                }
            }
        },
    }
    let ghost mid = tree@;
    let dest = op_dest(op);
    proof {
        assert(op_changes(before, mid, op@, source@));
        assert(mid.has_generator);
    }
    tree.update_subtree_hash(dest);
    proof {
        if before.hashed() && source@.hashed() {
            assert(mid.hashed_but(dest));
            if mid.contains(dest) {
                mid.lemma_rehash_hashed(tree@, dest);
            }
        }
    }
}

// The node that an operation changes.
fn op_dest(op: &TreePatchOperation) -> (dest: NodeRef)
    ensures
        dest == op@.dest(),
{
    match op {
        TreePatchOperation::InsertChild { dest, .. } => *dest,
        TreePatchOperation::DeleteChild { dest, .. } => *dest,
        TreePatchOperation::ReplaceChild { dest, .. } => *dest,
        TreePatchOperation::RemoveChildren { dest } => *dest,
        TreePatchOperation::SetChildren { dest, .. } => *dest,
        TreePatchOperation::ReplaceNode { dest, .. } => *dest,
    }
}

impl TreePatch {
    /// Applies the operations to `tree` in the order of the patch, taking
    /// copies from `source`. After each operation the cached hashes are made
    /// anew from the changed node up to the top of its tree.
    pub fn apply<G>(&self, tree: &mut Tree<G>, source: &Tree<G>) where
        G: UniqueGenerator<Output = NodeId>,

        requires
            old(tree).wf(),
            source.wf(),
            old(tree)@.has_generator,
        ensures
            final(tree).wf(),
            final(tree)@.has_generator,
            final(tree)@.nodes.len() >= old(tree)@.nodes.len(),
            final(tree)@.root == old(tree)@.root,
            patch_applied(old(tree)@, final(tree)@, self@, source@),
            old(tree)@.hashed() && source@.hashed() ==> final(tree)@.hashed(),
    {
        let ghost mut states: Seq<TreeView> = seq![tree@];
        let mut k: usize = 0;
        while k < self.patches.len()
            invariant
                k <= self.patches.len(),
                tree.wf(),
                source.wf(),
                tree@.has_generator,
                tree@.nodes.len() >= old(tree)@.nodes.len(),
                tree@.root == old(tree)@.root,
                patch_steps(states, self@.take(k as int), source@),
                states[0] == old(tree)@,
                states.last() == tree@,
                old(tree)@.hashed() && source@.hashed() ==> tree@.hashed(),
            decreases self.patches.len() - k,
        {
            let ghost earlier = states;
            apply_operation(tree, source, &self.patches[k]);
            proof {
                states = earlier.push(tree@);
                let ops = self@.take(k + 1);
                assert forall|j: int| 0 <= j < ops.len() implies op_applied(
                    #[trigger] states[j],
                    states[j + 1],
                    ops[j],
                    source@,
                ) by {
                    if j < k {
                        assert(self@.take(k as int)[j] == ops[j]);
                        assert(op_applied(earlier[j], earlier[j + 1], self@.take(k as int)[j], source@));
                    } else {
                        assert(ops[j] == self.patches@[k as int]@);
                        assert(states[j] == earlier.last());
                    }
                }
            }
            k += 1;
        }
        proof {
            assert(self@.take(k as int) == self@);
        }
    }
}

impl TreePatch {
    /// Applies the patch to an indexed tree, taking copies from `source`:
    /// the operations are applied to the tree in the order of the patch, and
    /// after each the cached hashes are made anew from the changed node up.
    /// Index and leaves are not touched.
    pub fn patch_tree<G>(&self, tree: &mut IndexedTree<G>, source: &Tree<G>) where
        G: UniqueGenerator<Output = NodeId>,

        requires
            old(tree).wf(),
            source.wf(),
            old(tree)@.tree.has_generator,
        ensures
            final(tree).wf(),
            final(tree)@.index == old(tree)@.index,
            final(tree)@.leaves == old(tree)@.leaves,
            final(tree)@.tree.has_generator,
            final(tree)@.tree.root == old(tree)@.tree.root,
            patch_applied(old(tree)@.tree, final(tree)@.tree, self@, source@),
            old(tree)@.tree.hashed() && source@.hashed() ==> final(tree)@.tree.hashed(),
    {
        tree.apply_patch(self, source);
    }
}

} // verus!
