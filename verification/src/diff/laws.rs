//! What holds of patches: what one operation does to the node that it
//! changes, and when a patch makes a node of the patched tree like the node
//! of the source that it was compared with.

use super::{
    children_diff, data_diff, descends_at, diff_below, diff_of, differs_at, edit_op, op_applied,
    op_changes, pair_diff, pairs_compared, patch_applied, patch_steps, wrap_ops, wraps_at, wraps_diff,
    OpView,
};
use crate::edit::laws::{
    inserts_above_deletes, lemma_edit_script_in_range, lemma_edit_script_round_trip, lemma_fit_prefix,
    lemma_script_replaces, replaces_in_place, replaces_only,
};
use crate::edit::{apply_edits, edit_script, edits_fit, Edit};
use crate::hash::data_hash;
use crate::noderef::NodeRef;
use crate::node::NodeView;
use crate::tree::model::TreeView;
use vstd::prelude::*;

verus! {

/// The operation names nodes and a place that exist: it is not one of those
/// that change nothing.
pub open spec fn op_valid(before: TreeView, op: OpView, source: TreeView) -> bool {
    &&& before.contains(op.dest())
    &&& match op {
        OpView::InsertChild { dest, index, source: from } => source.contains(from) && index
            <= before.children(dest).len(),
        OpView::DeleteChild { dest, index } => index < before.children(dest).len(),
        OpView::ReplaceChild { dest, index, source: from } => source.contains(from) && index
            < before.children(dest).len(),
        OpView::RemoveChildren { dest } => true,
        OpView::SetChildren { dest, nodes } => forall|k: int|
            0 <= k < nodes.len() ==> source.contains(#[trigger] nodes[k]),
        OpView::ReplaceNode { dest, source: from } => source.contains(from),
    }
}

/// The cached hashes of the children of the node that the operation changes,
/// as they are after the operation.
pub open spec fn hashes_after(before: TreeView, op: OpView, source: TreeView) -> Seq<u64> {
    let hashes = before.child_hashes(op.dest());
    if !op_valid(before, op, source) {
        hashes
    } else {
        match op {
            OpView::InsertChild { dest, index, source: from } => hashes.insert(
                index as int,
                source.hash(from),
            ),
            OpView::DeleteChild { dest, index } => hashes.remove(index as int),
            OpView::ReplaceChild { dest, index, source: from } => hashes.update(
                index as int,
                source.hash(from),
            ),
            OpView::RemoveChildren { dest } => Seq::empty(),
            OpView::SetChildren { dest, nodes } => Seq::new(
                nodes.len(),
                |k: int| source.hash(nodes[k]),
            ),
            OpView::ReplaceNode { dest, source: from } => hashes,
        }
    }
}

/// The data of the node that the operation changes, as it is after the
/// operation.
pub open spec fn data_after(before: TreeView, op: OpView, source: TreeView) -> Seq<u8> {
    match op {
        OpView::ReplaceNode { dest, source: from } => if op_valid(before, op, source) {
            source.node(from).data
        } else {
            before.node(dest).data
        },
        _ => before.node(op.dest()).data,
    }
}

// What the change that an operation asks for does to the node that it
// changes, before the hashes are made anew.
proof fn lemma_change_on_dest(before: TreeView, mid: TreeView, op: OpView, source: TreeView)
    requires
        before.wf(),
        source.wf(),
        before.contains(op.dest()),
        op_changes(before, mid, op, source),
    ensures
        mid.contains(op.dest()),
        mid.child_hashes(op.dest()) == hashes_after(before, op, source),
        mid.node(op.dest()).data == data_after(before, op, source),
{
    let d = op.dest();
    assert(before.contains(d));
    assert(before.node_wf(d));
    let hashes = before.child_hashes(d);
    match op {
        OpView::InsertChild { dest, index, source: from } => {
            if op_valid(before, op, source) {
                let copy = NodeRef::of(before.nodes.len() as int);
                let list = before.children(d).insert(index as int, copy);
                assert(mid.children(d) == list);
                assert forall|k: int| 0 <= k < list.len() implies mid.hash(list[k]) == hashes.insert(
                    index as int,
                    source.hash(from),
                )[k] by {
                    if k < index {
                        assert(list[k] == before.children(d)[k]);
                        assert(before.contains(list[k]));
                    } else if k > index {
                        assert(list[k] == before.children(d)[k - 1]);
                        assert(before.contains(list[k]));
                    }
                }
                assert(mid.child_hashes(d) =~= hashes.insert(index as int, source.hash(from)));
                assert(mid.node(d).data == before.node(d).data);
            }
        },
        OpView::DeleteChild { dest, index } => {
            if op_valid(before, op, source) {
                let list = before.children(d).remove(index as int);
                assert(before.contains(before.children(d)[index as int]));
                assert(mid.children(d) == list);
                assert forall|k: int| 0 <= k < list.len() implies mid.hash(list[k]) == hashes.remove(
                    index as int,
                )[k] by {
                    if k < index {
                        assert(list[k] == before.children(d)[k]);
                    } else {
                        assert(list[k] == before.children(d)[k + 1]);
                    }
                    assert(before.contains(list[k]));
                }
                assert(mid.child_hashes(d) =~= hashes.remove(index as int));
            }
        },
        OpView::ReplaceChild { dest, index, source: from } => {
            if op_valid(before, op, source) {
                let copy = NodeRef::of(before.nodes.len() as int);
                let list = before.children(d).update(index as int, copy);
                assert(before.contains(before.children(d)[index as int]));
                assert(mid.children(d) == list);
                assert forall|k: int| 0 <= k < list.len() implies mid.hash(list[k]) == hashes.update(
                    index as int,
                    source.hash(from),
                )[k] by {
                    if k != index {
                        assert(list[k] == before.children(d)[k]);
                        assert(before.contains(list[k]));
                    }
                }
                assert(mid.child_hashes(d) =~= hashes.update(index as int, source.hash(from)));
                assert(mid.node(d).data == before.node(d).data);
            }
        },
        OpView::RemoveChildren { dest } => {
            before.lemma_abandon_wf(d);
            let bare = before.with_node(
                d,
                crate::node::NodeView { children: None, ..before.node(d) },
            );
            bare.lemma_orphan_all(before.children(d));
            assert(bare.contains(d));
            if before.children(d).contains(d) {
                let w = choose|w: int| 0 <= w < before.children(d).len() && before.children(d)[w] == d;
                assert(d.at() < before.children(d)[w].at());
            }
            assert(mid.node(d) == bare.node(d));
            assert(mid.children(d) =~= Seq::<NodeRef>::empty());
            assert(mid.child_hashes(d) =~= Seq::<u64>::empty());
        },
        OpView::SetChildren { dest, nodes } => {
            if op_valid(before, op, source) {
                assert forall|k: int| 0 <= k < nodes.len() implies mid.hash(mid.children(d)[k])
                    == source.hash(nodes[k]) by {
                    let c = mid.children(d)[k];
                    assert(mid.same_shape(c, source, nodes[k]));
                }
                assert(mid.child_hashes(d) =~= Seq::new(nodes.len(), |k: int| source.hash(nodes[k])));
                assert(mid.node(d).data == before.node(d).data);
            }
        },
        OpView::ReplaceNode { dest, source: from } => {
            if op_valid(before, op, source) {
                assert(mid.child_hashes(d) =~= hashes);
            }
        },
    }
}

/// What an operation does to the node that it changes: the node has the
/// children hashes and the data that the operation gives it, and caches the
/// subtree hash that these give.
pub proof fn lemma_op_on_dest(before: TreeView, after: TreeView, op: OpView, source: TreeView)
    requires
        before.wf(),
        source.wf(),
        before.contains(op.dest()),
        op_applied(before, after, op, source),
    ensures
        after.wf(),
        after.contains(op.dest()),
        after.child_hashes(op.dest()) == hashes_after(before, op, source),
        after.node(op.dest()).data == data_after(before, op, source),
        after.hash_ok(op.dest()),
{
    let mid = choose|mid: TreeView|
        {
            &&& #[trigger] op_changes(before, mid, op, source)
            &&& mid.wf()
            &&& after.wf()
            &&& if mid.contains(op.dest()) {
                mid.rehashed_from(after, op.dest())
            } else {
                after == mid
            }
        };
    lemma_change_on_dest(before, mid, op, source);
    mid.lemma_rehash_at(after, op.dest());
}

/// The steps from the `from`-th operation on are steps of the rest of the
/// patch.
pub proof fn lemma_steps_from(states: Seq<TreeView>, ops: Seq<OpView>, source: TreeView, from: int)
    requires
        patch_steps(states, ops, source),
        0 <= from <= ops.len(),
    ensures
        patch_steps(states.skip(from), ops.skip(from), source),
{
    let later = states.skip(from);
    let rest = ops.skip(from);
    assert forall|k: int| 0 <= k < rest.len() implies op_applied(
        #[trigger] later[k],
        later[k + 1],
        rest[k],
        source,
    ) by {
        assert(later[k] == states[k + from]);
        assert(op_applied(states[k + from], states[k + from + 1], ops[k + from], source));
    }
}

/// Applied to a tree in which `d` has children with the hashes `h0`, the
/// operations that stand for the edit script from `h0` to the hashes of the
/// children of `s` change the hashes of the children of `d` as the edits
/// change `h0`, and leave the data of `d` alone.
pub proof fn lemma_script_applies(
    states: Seq<TreeView>,
    ops: Seq<OpView>,
    d: NodeRef,
    source: TreeView,
    s: NodeRef,
    h0: Seq<u64>,
    k: int,
)
    requires
        source.wf(),
        source.contains(s),
        states.len() > 0,
        states[0].wf(),
        states[0].contains(d),
        states[0].child_hashes(d) == h0,
        patch_steps(states, ops, source),
        ops.len() == edit_script(h0, source.child_hashes(s)).len(),
        forall|j: int|
            0 <= j < ops.len() ==> #[trigger] ops[j] == edit_op(
                d,
                source.children(s),
                edit_script(h0, source.child_hashes(s))[j],
            ),
        edits_fit(h0, source.child_hashes(s), edit_script(h0, source.child_hashes(s))),
        0 <= k <= ops.len(),
    ensures
        states[k].wf(),
        states[k].contains(d),
        states[k].child_hashes(d) == apply_edits(
            h0,
            source.child_hashes(s),
            edit_script(h0, source.child_hashes(s)).take(k),
        ),
        states[k].node(d).data == states[0].node(d).data,
        k > 0 ==> states[k].hash_ok(d),
    decreases k,
{
    let hs = source.child_hashes(s);
    let script = edit_script(h0, hs);
    if k == 0 {
        assert(script.take(0) =~= Seq::<Edit>::empty());
    } else {
        lemma_script_applies(states, ops, d, source, s, h0, k - 1);
        let before = states[k - 1];
        let e = script[k - 1];
        let op = ops[k - 1];
        let ch = before.child_hashes(d);
        assert(op == edit_op(d, source.children(s), e));
        assert(op_applied(states[k - 1], states[k - 1 + 1], ops[k - 1], source));
        lemma_fit_prefix(h0, hs, script, k);
        assert(script.take(k).drop_last() == script.take(k - 1));
        assert(script.take(k).last() == e);
        assert(e.fits(ch.len() as int, hs.len() as int));
        assert(source.node_wf(s));
        assert(op.dest() == d);
        lemma_op_on_dest(before, states[k], op, source);
        match e {
            Edit::Delete { dest_index } => {},
            Edit::Replace { dest_index, source_index } => {
                assert(source.contains(source.children(s)[source_index as int]));
            },
            Edit::Insert { dest_index, source_index } => {
                assert(source.contains(source.children(s)[source_index as int]));
            },
        }
        assert(hashes_after(before, op, source) == e.apply(ch, hs));
    }
}

/// The two nodes are compared on the spot: the patch for them is what their
/// comparison reports at once, and all of it changes the destination node
/// itself. That is so unless their children are compared pair by pair, or
/// both are leaves with parents, whose child lists are then compared.
pub open spec fn compared_at_once(dest: TreeView, d: NodeRef, source: TreeView, s: NodeRef) -> bool {
    &&& !pairs_compared(dest, d, source, s)
    &&& !(dest.is_leaf(d) && source.is_leaf(s) && dest.node(d).parent is Some && source.node(
        s,
    ).parent is Some)
}

/// The child lists of the two nodes are made alike by an edit script.
pub open spec fn lists_edited(dest: TreeView, d: NodeRef, source: TreeView, s: NodeRef) -> bool {
    &&& dest.hash(d) != source.hash(s)
    &&& !dest.is_leaf(d)
    &&& !source.is_leaf(s)
    &&& dest.children(d).len() != source.children(s).len()
}

// What the rest of the patch, behind the replacement of the data, does to a
// tree in which `d` has the children hashes that it had in `dest` and data
// with the hash of the data of `s`.
proof fn lemma_rest_makes_alike(
    states: Seq<TreeView>,
    rest: Seq<OpView>,
    dest: TreeView,
    d: NodeRef,
    source: TreeView,
    s: NodeRef,
)
    requires
        dest.wf(),
        source.wf(),
        dest.contains(d),
        source.contains(s),
        source.hash_ok(s),
        dest.hash(d) != source.hash(s),
        compared_at_once(dest, d, source, s),
        lists_edited(dest, d, source, s) ==> inserts_above_deletes(
            edit_script(dest.child_hashes(d), source.child_hashes(s)),
        ),
        data_diff(dest, d, source, s) + rest == pair_diff(dest, d, source, s),
        patch_steps(states, rest, source),
        states[0].wf(),
        states[0].contains(d),
        states[0].child_hashes(d) == dest.child_hashes(d),
        data_hash(states[0].node(d).data) == data_hash(source.node(s).data),
        states[0].hash_ok(d),
    ensures
        states.last().wf(),
        states.last().contains(d),
        states.last().hash(d) == source.hash(s),
        forall|j: int| 0 <= j < rest.len() ==> (#[trigger] rest[j]).dest() == d,
{
    let head = data_diff(dest, d, source, s);
    let hs = source.child_hashes(s);
    assert(source.node_wf(s));
    assert(dest.node_wf(d));
    // What is reported behind the replacement of the data.
    let tail = if dest.is_leaf(d) && source.is_leaf(s) {
        Seq::<OpView>::empty()
    } else if dest.is_leaf(d) {
        wrap_ops(d, source, s)
    } else if source.is_leaf(s) {
        seq![OpView::RemoveChildren { dest: d }]
    } else if dest.child_hashes(d) == source.child_hashes(s) {
        Seq::<OpView>::empty()
    } else {
        children_diff(dest, d, source, s)
    };
    assert(pair_diff(dest, d, source, s) == head + tail);
    assert(rest =~= tail) by {
        assert((head + rest).skip(head.len() as int) =~= rest);
        assert((head + tail).skip(head.len() as int) =~= tail);
    }
    if dest.is_leaf(d) && source.is_leaf(s) {
        assert(dest.child_hashes(d) =~= hs);
    } else if dest.is_leaf(d) {
        let set = OpView::SetChildren { dest: d, nodes: source.children(s) };
        let replace = OpView::ReplaceNode { dest: d, source: s };
        assert(op_applied(states[0], states[0int + 1], rest[0], source));
        lemma_op_on_dest(states[0], states[1], set, source);
        assert(op_valid(states[0], set, source)) by {
            assert forall|k: int| 0 <= k < source.children(s).len() implies source.contains(
                #[trigger] source.children(s)[k],
            ) by {
            }
        }
        assert(states[1].child_hashes(d) =~= hs);
        assert(op_applied(states[1], states[1int + 1], rest[1], source));
        lemma_op_on_dest(states[1], states[2], replace, source);
    } else if source.is_leaf(s) {
        let remove = OpView::RemoveChildren { dest: d };
        assert(op_applied(states[0], states[0int + 1], rest[0], source));
        lemma_op_on_dest(states[0], states[1], remove, source);
        assert(hs =~= Seq::<u64>::empty());
    } else if dest.child_hashes(d) == source.child_hashes(s) {
    } else {
        let h0 = dest.child_hashes(d);
        let script = edit_script(h0, hs);
        assert(lists_edited(dest, d, source, s));
        dest.lemma_children_bounded(d);
        source.lemma_children_bounded(s);
        lemma_edit_script_round_trip(h0, hs);
        lemma_edit_script_in_range(h0, hs);
        crate::edit::laws::lemma_edit_script_is_shortest(h0, hs);
        crate::edit::laws::lemma_distance_at_least(h0, hs, h0.len(), hs.len());
        assert(rest.len() == script.len());
        lemma_script_applies(states, rest, d, source, s, h0, rest.len() as int);
        assert(script.take(rest.len() as int) == script);
        assert forall|j: int| 0 <= j < rest.len() implies (#[trigger] rest[j]).dest() == d by {
            assert(rest[j] == edit_op(d, source.children(s), script[j]));
        }
    }
}

// The patched tree has the node `d` as `dest` has it: with its children,
// their cached hashes, its data and its cached hash.
spec fn same_at(dest: TreeView, d: NodeRef, x: TreeView) -> bool {
    &&& x.wf()
    &&& x.contains(d)
    &&& x.nodes.len() >= dest.nodes.len()
    &&& x.node(d).children == dest.node(d).children
    &&& x.node(d).data == dest.node(d).data
    &&& x.node(d).subtree_hash == dest.node(d).subtree_hash
    &&& x.child_hashes(d) == dest.child_hashes(d)
}

// The patch for two nodes that are compared on the spot, applied to a tree
// that has the destination node as `dest` has it.
proof fn lemma_at_once_core(
    dest: TreeView,
    d: NodeRef,
    source: TreeView,
    s: NodeRef,
    states: Seq<TreeView>,
)
    requires
        dest.wf(),
        source.wf(),
        dest.contains(d),
        source.contains(s),
        dest.hash_ok(d),
        source.hash_ok(s),
        dest.hash(d) != source.hash(s),
        compared_at_once(dest, d, source, s),
        lists_edited(dest, d, source, s) ==> inserts_above_deletes(
            edit_script(dest.child_hashes(d), source.child_hashes(s)),
        ),
        patch_steps(states, diff_of(dest, d, source, s), source),
        same_at(dest, d, states[0]),
    ensures
        states.last().wf(),
        states.last().contains(d),
        states.last().hash(d) == source.hash(s),
        diff_of(dest, d, source, s).len() > 0,
        forall|j: int|
            0 <= j < diff_of(dest, d, source, s).len() ==> (#[trigger] diff_of(dest, d, source, s)[j]).dest()
                == d,
{
    let ops = diff_of(dest, d, source, s);
    assert(ops =~= pair_diff(dest, d, source, s));
    let head = data_diff(dest, d, source, s);
    let rest = ops.skip(head.len() as int);
    assert(head + rest =~= ops);
    lemma_steps_from(states, ops, source, head.len() as int);
    let later = states.skip(head.len() as int);
    assert(later.last() == states.last());
    assert(states[0].hash_ok(d));
    if head.len() > 0 {
        let replace = OpView::ReplaceNode { dest: d, source: s };
        assert(ops[0] == replace);
        assert(op_applied(states[0], states[0int + 1], ops[0], source));
        lemma_op_on_dest(states[0], states[1], replace, source);
        assert(later[0] == states[1]);
    } else {
        assert(later[0] == states[0]);
    }
    lemma_rest_makes_alike(later, rest, dest, d, source, s);
    if ops.len() == 0 {
        assert(states.last() == states[0]);
    }
    assert forall|j: int| 0 <= j < ops.len() implies (#[trigger] ops[j]).dest() == d by {
        if j >= head.len() {
            assert(ops[j] == rest[j - head.len()]);
        }
    }
}

/// A patch makes the destination node like the source node, where the two
/// are compared on the spot: after the patch, the destination node caches
/// the subtree hash of the source node.
///
/// Where the child lists are made alike by an edit script, this holds if
/// every insertion of the script lies above every deletion.
pub proof fn lemma_patch_makes_alike(
    dest: TreeView,
    after: TreeView,
    d: NodeRef,
    source: TreeView,
    s: NodeRef,
)
    requires
        dest.wf(),
        source.wf(),
        dest.contains(d),
        source.contains(s),
        dest.hash_ok(d),
        source.hash_ok(s),
        compared_at_once(dest, d, source, s),
        lists_edited(dest, d, source, s) ==> inserts_above_deletes(
            edit_script(dest.child_hashes(d), source.child_hashes(s)),
        ),
        patch_applied(dest, after, diff_of(dest, d, source, s), source),
    ensures
        after.wf(),
        after.contains(d),
        after.hash(d) == source.hash(s),
{
    let ops = diff_of(dest, d, source, s);
    let states = choose|states: Seq<TreeView>|
        #[trigger] patch_steps(states, ops, source) && states[0] == dest && states.last() == after;
    if dest.hash(d) == source.hash(s) {
        assert(ops =~= Seq::<OpView>::empty());
    } else {
        lemma_at_once_core(dest, d, source, s, states);
    }
}

/// What the replacement of the data of a node leaves alone: parents, child
/// lists and the data of all other nodes, and the cached hash of every node
/// that is not the node or stands above it. The node and those above it cache
/// the subtree hashes that their data and children give.
pub proof fn lemma_replace_node_frame(
    before: TreeView,
    after: TreeView,
    x: NodeRef,
    from: NodeRef,
    source: TreeView,
)
    requires
        before.wf(),
        source.wf(),
        before.contains(x),
        op_applied(before, after, OpView::ReplaceNode { dest: x, source: from }, source),
    ensures
        after.wf(),
        after.nodes.len() == before.nodes.len(),
        forall|y: NodeRef| #[trigger]
            before.contains(y) ==> after.node(y).parent == before.node(y).parent && after.node(
                y,
            ).children == before.node(y).children && after.node(y).id == before.node(y).id
                && after.node(y).position == before.node(y).position,
        forall|y: NodeRef| #[trigger]
            before.contains(y) && y != x ==> after.node(y).data == before.node(y).data,
        forall|y: NodeRef| #[trigger]
            before.contains(y) && !before.is_above(y, x) ==> after.hash(y) == before.hash(y),
        forall|y: NodeRef| #[trigger]
            before.contains(y) && before.is_above(y, x) ==> after.hash_ok(y),
{
    let op = OpView::ReplaceNode { dest: x, source: from };
    let mid = choose|mid: TreeView|
        {
            &&& #[trigger] op_changes(before, mid, op, source)
            &&& mid.wf()
            &&& after.wf()
            &&& if mid.contains(op.dest()) {
                mid.rehashed_from(after, op.dest())
            } else {
                after == mid
            }
        };
    assert(mid.contains(x));
    assert forall|y: NodeRef| #[trigger] before.contains(y) implies mid.node(y).parent == before.node(
        y,
    ).parent by {
    }
    assert forall|y: NodeRef| #[trigger] before.contains(y) implies mid.is_above(y, x)
        == before.is_above(y, x) by {
        before.lemma_above_same_parents(mid, y, x);
    }
    assert forall|y: NodeRef| #[trigger] before.contains(y) implies after.node(y).parent
        == before.node(y).parent && after.node(y).children == before.node(y).children && after.node(
        y,
    ).id == before.node(y).id && after.node(y).position == before.node(y).position by {
        assert(mid.contains(y));
    }
    assert forall|y: NodeRef| #[trigger] before.contains(y) && y != x implies after.node(y).data
        == before.node(y).data by {
        assert(mid.contains(y));
    }
    assert forall|y: NodeRef| #[trigger]
        before.contains(y) && !before.is_above(y, x) implies after.hash(y) == before.hash(y) by {
        assert(mid.contains(y));
    }
    assert forall|y: NodeRef| #[trigger] before.contains(y) && before.is_above(y, x) implies after.hash_ok(
        y,
    ) by {
        assert(mid.contains(y));
    }
}

/// What the replacement of a child does to the child list of the parent and
/// to the parents of the other nodes: the copy stands in the place of the
/// former child, in a fresh slot; the former child has no parent; every other
/// node has the parent that it had.
pub proof fn lemma_replace_child_frame(
    before: TreeView,
    after: TreeView,
    d: NodeRef,
    index: usize,
    from: NodeRef,
    source: TreeView,
)
    requires
        before.wf(),
        source.wf(),
        before.contains(d),
        source.contains(from),
        index < before.children(d).len(),
        op_applied(before, after, OpView::ReplaceChild { dest: d, index, source: from }, source),
    ensures
        after.nodes.len() > before.nodes.len(),
        after.children(d) == before.children(d).update(
            index as int,
            NodeRef::of(before.nodes.len() as int),
        ),
        forall|y: NodeRef| #[trigger]
            before.contains(y) ==> after.node(y).parent == if y == before.children(d)[index as int] {
                None
            } else {
                before.node(y).parent
            },
{
    let op = OpView::ReplaceChild { dest: d, index, source: from };
    let mid = choose|mid: TreeView|
        {
            &&& #[trigger] op_changes(before, mid, op, source)
            &&& mid.wf()
            &&& after.wf()
            &&& if mid.contains(op.dest()) {
                mid.rehashed_from(after, op.dest())
            } else {
                after == mid
            }
        };
    assert(before.node_wf(d));
    assert(mid.contains(d));
    assert forall|y: NodeRef| #[trigger] before.contains(y) implies after.node(y).parent == if y
        == before.children(d)[index as int] {
        None
    } else {
        before.node(y).parent
    } by {
        assert(mid.contains(y));
        assert(before.children(d)[index as int] != d);
    }
}

/// The steps up to the `upto`-th operation are steps of the front of the
/// patch.
pub proof fn lemma_steps_upto(states: Seq<TreeView>, ops: Seq<OpView>, source: TreeView, upto: int)
    requires
        patch_steps(states, ops, source),
        0 <= upto <= ops.len(),
    ensures
        patch_steps(states.take(upto + 1), ops.take(upto), source),
{
    let earlier = states.take(upto + 1);
    let front = ops.take(upto);
    assert forall|k: int| 0 <= k < front.len() implies op_applied(
        #[trigger] earlier[k],
        earlier[k + 1],
        front[k],
        source,
    ) by {
        assert(earlier[k] == states[k]);
        assert(op_applied(states[k], states[k + 1], ops[k], source));
    }
}

// What the change that an operation asks for leaves alone: every node but
// the one that it changes and the children that this one had keeps what it
// holds; those children keep all but their parent; the changed node keeps
// its parent and its cached hash, and gets no children but ones that it had
// and nodes in fresh slots.
proof fn lemma_change_frame(before: TreeView, mid: TreeView, op: OpView, source: TreeView)
    requires
        before.wf(),
        source.wf(),
        op_changes(before, mid, op, source),
    ensures
        mid.nodes.len() >= before.nodes.len(),
        forall|y: NodeRef| #[trigger]
            before.contains(y) ==> {
                &&& mid.node(y).subtree_hash == before.node(y).subtree_hash
                &&& mid.node(y).id == before.node(y).id
                &&& mid.node(y).position == before.node(y).position
                &&& mid.node(y).parent == before.node(y).parent || (mid.node(y).parent is None
                    && before.contains(op.dest()) && before.children(op.dest()).contains(y))
                &&& y != op.dest() ==> mid.node(y).children == before.node(y).children && mid.node(
                    y,
                ).data == before.node(y).data
            },
        before.contains(op.dest()) ==> forall|k: int|
            0 <= k < mid.children(op.dest()).len() ==> before.children(op.dest()).contains(
                #[trigger] mid.children(op.dest())[k],
            ) || mid.children(op.dest())[k].at() >= before.nodes.len(),
{
    let d = op.dest();
    if before.contains(d) {
        assert(before.node_wf(d));
    }
    match op {
        OpView::InsertChild { dest, index, source: from } => {
            if op_valid(before, op, source) {
                let copy = NodeRef::of(before.nodes.len() as int);
                let list = before.children(d);
                assert(mid.children(d) == list.insert(index as int, copy));
                assert forall|k: int| 0 <= k < mid.children(d).len() implies list.contains(
                    #[trigger] mid.children(d)[k],
                ) || mid.children(d)[k].at() >= before.nodes.len() by {
                    if k < index {
                        assert(mid.children(d)[k] == list[k]);
                    } else if k > index {
                        assert(mid.children(d)[k] == list[k - 1]);
                    }
                }
                assert forall|y: NodeRef| #[trigger] before.contains(y) implies mid.node(y).parent
                    == before.node(y).parent by {
                }
            }
        },
        OpView::DeleteChild { dest, index } => {
            if op_valid(before, op, source) {
                let list = before.children(d);
                assert(before.contains(list[index as int]));
                assert(mid.children(d) == list.remove(index as int));
                assert forall|k: int| 0 <= k < mid.children(d).len() implies list.contains(
                    #[trigger] mid.children(d)[k],
                ) by {
                    if k < index {
                        assert(mid.children(d)[k] == list[k]);
                    } else {
                        assert(mid.children(d)[k] == list[k + 1]);
                    }
                }
                assert forall|y: NodeRef| #[trigger] before.contains(y) implies mid.node(y).parent
                    == before.node(y).parent || (mid.node(y).parent is None && list.contains(y)) by {
                    if y == list[index as int] {
                        assert(list.contains(y));
                    }
                }
            }
        },
        OpView::ReplaceChild { dest, index, source: from } => {
            if op_valid(before, op, source) {
                let copy = NodeRef::of(before.nodes.len() as int);
                let list = before.children(d);
                assert(before.contains(list[index as int]));
                assert(mid.children(d) == list.update(index as int, copy));
                assert forall|k: int| 0 <= k < mid.children(d).len() implies list.contains(
                    #[trigger] mid.children(d)[k],
                ) || mid.children(d)[k].at() >= before.nodes.len() by {
                    if k != index {
                        assert(mid.children(d)[k] == list[k]);
                    }
                }
                assert forall|y: NodeRef| #[trigger] before.contains(y) implies mid.node(y).parent
                    == before.node(y).parent || (mid.node(y).parent is None && list.contains(y)) by {
                    if y == list[index as int] {
                        assert(list.contains(y));
                    }
                }
            }
        },
        OpView::RemoveChildren { dest } => {
            if before.contains(d) {
                before.lemma_abandon_wf(d);
                let bare = before.with_node(
                    d,
                    crate::node::NodeView { children: None, ..before.node(d) },
                );
                bare.lemma_orphan_all(before.children(d));
                assert(bare.contains(d));
                if before.children(d).contains(d) {
                    let w = choose|w: int| 0 <= w < before.children(d).len() && before.children(d)[w] == d;
                    assert(d.at() < before.children(d)[w].at());
                }
                assert(mid.node(d) == bare.node(d));
                assert(mid.children(d) =~= Seq::<NodeRef>::empty());
                assert forall|y: NodeRef| #[trigger] before.contains(y) implies {
                    &&& mid.node(y).subtree_hash == before.node(y).subtree_hash
                    &&& mid.node(y).id == before.node(y).id
                    &&& mid.node(y).position == before.node(y).position
                    &&& mid.node(y).parent == before.node(y).parent || (mid.node(y).parent is None
                        && before.children(d).contains(y))
                    &&& y != d ==> mid.node(y).children == before.node(y).children && mid.node(y).data
                        == before.node(y).data
                } by {
                    assert(bare.contains(y));
                }
            }
        },
        OpView::SetChildren { dest, nodes } => {
            if op_valid(before, op, source) {
                assert forall|k: int| 0 <= k < mid.children(d).len() implies mid.children(d)[k].at()
                    >= before.nodes.len() by {
                }
            }
        },
        OpView::ReplaceNode { dest, source: from } => {
            if op_valid(before, op, source) {
                assert(mid.children(d) == before.children(d));
                assert forall|k: int| 0 <= k < mid.children(d).len() implies before.children(
                    d,
                ).contains(#[trigger] mid.children(d)[k]) by {
                }
            } else if before.contains(d) {
                assert forall|k: int| 0 <= k < mid.children(d).len() implies before.children(
                    d,
                ).contains(#[trigger] mid.children(d)[k]) by {
                }
            }
        },
    }
    if before.contains(d) && !op_valid(before, op, source) {
        assert(mid == before);
        assert forall|k: int| 0 <= k < mid.children(d).len() implies before.children(d).contains(
            #[trigger] mid.children(d)[k],
        ) by {
        }
    }
}

/// The node is a node of `dest` in the subtree below `d`.
pub open spec fn is_below(dest: TreeView, d: NodeRef, y: NodeRef) -> bool {
    dest.contains(y) && dest.is_above(d, y)
}

/// Every operation changes a node of `dest` in the subtree below `d`.
pub open spec fn dests_below(dest: TreeView, d: NodeRef, ops: Seq<OpView>) -> bool {
    forall|j: int| 0 <= j < ops.len() ==> is_below(dest, d, (#[trigger] ops[j]).dest())
}

// What holds of the patched tree `x` while the subtree below `d` is
// patched: the nodes of `dest` have the parents that they had, or none; and
// the nodes of `dest` below `d` have no children but nodes of `dest` below
// `d` and nodes in fresh slots.
spec fn within(dest: TreeView, d: NodeRef, x: TreeView) -> bool {
    &&& x.wf()
    &&& x.nodes.len() >= dest.nodes.len()
    &&& forall|y: NodeRef| #[trigger]
        dest.contains(y) ==> x.node(y).parent == dest.node(y).parent || x.node(y).parent is None
    &&& forall|y: NodeRef, k: int|
        is_below(dest, d, y) && 0 <= k < x.children(y).len() ==> is_below(
            dest,
            d,
            #[trigger] x.children(y)[k],
        ) || x.children(y)[k].at() >= dest.nodes.len()
}

// The tree `after` is `before` but for the nodes of `dest` below `d`, for
// fresh slots, and for the cached hashes of the nodes above `d`.
spec fn outside_kept(dest: TreeView, d: NodeRef, before: TreeView, after: TreeView) -> bool {
    &&& forall|y: NodeRef| #[trigger]
        dest.contains(y) && !is_below(dest, d, y) ==> after.node(y) == (crate::node::NodeView {
            subtree_hash: after.hash(y),
            ..before.node(y)
        })
    &&& forall|y: NodeRef| #[trigger]
        dest.contains(y) && !is_below(dest, d, y) && !dest.is_above(y, d) ==> after.hash(y)
            == before.hash(y)
    &&& after.node(d).parent == before.node(d).parent
}

// One operation on a node below `d` keeps the tree within bounds, leaves
// the rest of the tree alone, and leaves the changed node and the nodes above
// it with the cached hashes that their data and children give.
proof fn lemma_op_within(
    dest: TreeView,
    d: NodeRef,
    before: TreeView,
    after: TreeView,
    op: OpView,
    source: TreeView,
)
    requires
        dest.wf(),
        source.wf(),
        dest.contains(d),
        within(dest, d, before),
        is_below(dest, d, op.dest()),
        op_applied(before, after, op, source),
    ensures
        within(dest, d, after),
        outside_kept(dest, d, before, after),
        forall|y: NodeRef| #[trigger]
            after.contains(y) && after.is_above(y, op.dest()) ==> after.hash_ok(y),
{
    let x = op.dest();
    let mid = choose|mid: TreeView|
        {
            &&& #[trigger] op_changes(before, mid, op, source)
            &&& mid.wf()
            &&& after.wf()
            &&& if mid.contains(op.dest()) {
                mid.rehashed_from(after, op.dest())
            } else {
                after == mid
            }
        };
    lemma_change_frame(before, mid, op, source);
    assert(before.contains(x));
    assert(mid.contains(x));
    // A node of `dest` outside the subtree is no child of a node inside.
    assert forall|y: NodeRef| dest.contains(y) && !is_below(dest, d, y) implies !before.children(
        x,
    ).contains(y) by {
        if before.children(x).contains(y) {
            let j = choose|j: int| 0 <= j < before.children(x).len() && before.children(x)[j] == y;
            assert(is_below(dest, d, before.children(x)[j]) || before.children(x)[j].at()
                >= dest.nodes.len());
        }
    }
    assert forall|y: NodeRef| #[trigger] dest.contains(y) implies mid.node(y).parent == dest.node(
        y,
    ).parent || mid.node(y).parent is None by {
        assert(before.contains(y));
    }
    assert forall|y: NodeRef| #[trigger] dest.contains(y) implies after.node(y).parent == dest.node(
        y,
    ).parent || after.node(y).parent is None by {
        assert(mid.contains(y));
    }
    assert forall|y: NodeRef, k: int|
        is_below(dest, d, y) && 0 <= k < after.children(y).len() implies is_below(
        dest,
        d,
        #[trigger] after.children(y)[k],
    ) || after.children(y)[k].at() >= dest.nodes.len() by {
        assert(before.contains(y));
        assert(mid.contains(y));
        assert(after.children(y) == mid.children(y));
        let c = mid.children(y)[k];
        if y == x {
            if before.children(x).contains(c) {
                let j = choose|j: int| 0 <= j < before.children(x).len() && before.children(x)[j] == c;
                assert(is_below(dest, d, before.children(x)[j]) || before.children(x)[j].at()
                    >= dest.nodes.len());
            }
        } else {
            assert(mid.children(y) == before.children(y));
            assert(is_below(dest, d, before.children(y)[k]) || before.children(y)[k].at()
                >= dest.nodes.len());
        }
    }
    assert forall|y: NodeRef| #[trigger] dest.contains(y) && !is_below(dest, d, y) implies after.node(
        y,
    ) == (crate::node::NodeView { subtree_hash: after.hash(y), ..before.node(y) }) by {
        assert(before.contains(y));
        assert(mid.contains(y));
        assert(y != x);
        assert(!before.children(x).contains(y));
        assert(mid.node(y) == before.node(y));
    }
    assert forall|y: NodeRef| #[trigger]
        dest.contains(y) && !is_below(dest, d, y) && !dest.is_above(y, d) implies after.hash(y)
        == before.hash(y) by {
        assert(before.contains(y));
        assert(mid.contains(y));
        if mid.is_above(y, x) {
            dest.lemma_above_pruned(mid, y, x);
            dest.lemma_above_comparable(d, y, x);
        }
    }
    assert(after.node(d).parent == before.node(d).parent) by {
        assert(before.contains(d));
        assert(mid.contains(d));
        if before.children(x).contains(d) {
            let j = choose|j: int| 0 <= j < before.children(x).len() && before.children(x)[j] == d;
            assert(before.node_wf(x));
            assert(x.at() < before.children(x)[j].at());
            dest.lemma_above_slot(d, x);
        }
    }
    assert forall|y: NodeRef| #[trigger] after.contains(y) && after.is_above(y, x) implies after.hash_ok(
        y,
    ) by {
        assert forall|z: NodeRef| #[trigger] mid.contains(z) implies after.node(z).parent == mid.node(
            z,
        ).parent by {
        }
        mid.lemma_above_same_parents(after, y, x);
        mid.lemma_above_slot(y, x);
        assert(mid.contains(y));
    }
}

// Operations on nodes below `d` keep the tree within bounds and leave the
// rest of the tree alone.
proof fn lemma_steps_within(
    dest: TreeView,
    d: NodeRef,
    states: Seq<TreeView>,
    ops: Seq<OpView>,
    source: TreeView,
    m: int,
)
    requires
        dest.wf(),
        source.wf(),
        dest.contains(d),
        within(dest, d, states[0]),
        dests_below(dest, d, ops),
        patch_steps(states, ops, source),
        0 <= m <= ops.len(),
    ensures
        within(dest, d, states[m]),
        outside_kept(dest, d, states[0], states[m]),
    decreases m,
{
    if m > 0 {
        lemma_steps_within(dest, d, states, ops, source, m - 1);
        assert(op_applied(states[m - 1], states[m - 1 + 1], ops[m - 1], source));
        lemma_op_within(dest, d, states[m - 1], states[m], ops[m - 1], source);
        assert forall|y: NodeRef| #[trigger] dest.contains(y) && !is_below(dest, d, y) implies states[m].node(
            y,
        ) == (crate::node::NodeView { subtree_hash: states[m].hash(y), ..states[0].node(y) }) by {
            assert(states[m - 1].node(y) == (crate::node::NodeView {
                subtree_hash: states[m - 1].hash(y),
                ..states[0].node(y)
            }));
        }
    } else {
        assert(dest.is_above(d, d));
    }
}

// What is reported for wrappings changes `d`.
proof fn lemma_wraps_shape(dest: TreeView, d: NodeRef, source: TreeView, s: NodeRef, k: int)
    ensures
        forall|j: int|
            0 <= j < wraps_diff(dest, d, source, s, k).len() ==> (#[trigger] wraps_diff(
                dest,
                d,
                source,
                s,
                k,
            )[j]).dest() == d,
    decreases k,
{
    if k > 0 {
        lemma_wraps_shape(dest, d, source, s, k - 1);
        let ops = wraps_diff(dest, d, source, s, k);
        let front = wraps_diff(dest, d, source, s, k - 1);
        assert forall|j: int| 0 <= j < ops.len() implies (#[trigger] ops[j]).dest() == d by {
            if j < front.len() {
                assert(ops[j] == front[j]);
            }
        }
    }
}

/// The children of the two nodes are compared pair by pair, and among the
/// pairs that differ is a wrapping or a pair of leaves. Where a pair of
/// leaves differs that is no wrapping, the script that makes the child lists
/// alike holds replacements only.
pub open spec fn mixed(dest: TreeView, d: NodeRef, source: TreeView, s: NodeRef) -> bool {
    &&& pairs_compared(dest, d, source, s)
    &&& exists|k: int|
        0 <= k < dest.children(d).len() && #[trigger] differs_at(dest, d, source, s, k) && (wraps_at(
            dest,
            d,
            source,
            s,
            k,
        ) || (dest.is_leaf(dest.children(d)[k]) && source.is_leaf(source.children(s)[k])))
    &&& (exists|k: int|
        0 <= k < dest.children(d).len() && #[trigger] differs_at(dest, d, source, s, k) && !wraps_at(
            dest,
            d,
            source,
            s,
            k,
        ) && dest.is_leaf(dest.children(d)[k]) && source.is_leaf(source.children(s)[k]))
        ==> replaces_only(edit_script(dest.child_hashes(d), source.child_hashes(s)))
}

/// The children of the two nodes are compared pair by pair, and each pair
/// that differs is compared on its own: it is no wrapping and no pair of
/// leaves.
pub open spec fn descends(dest: TreeView, d: NodeRef, source: TreeView, s: NodeRef) -> bool {
    &&& pairs_compared(dest, d, source, s)
    &&& forall|k: int|
        0 <= k < dest.children(d).len() && #[trigger] differs_at(dest, d, source, s, k) ==> {
            &&& !wraps_at(dest, d, source, s, k)
            &&& !(dest.is_leaf(dest.children(d)[k]) && source.is_leaf(source.children(s)[k]))
        }
}

/// The patch for the two nodes mends the destination node. That is so where
///
/// - the two nodes cache the same subtree hash, so that nothing is to be
///   done; or
/// - they are compared on the spot, and, if their child lists are made alike
///   by an edit script, every insertion of it lies above every deletion; or
/// - among the pairs of their children that differ is a wrapping, or a pair
///   of leaves with a script of replacements only (see [`mixed`]); or
/// - each pair of their children that differs is compared on its own, and
///   the patch for it mends the child.
pub open spec fn mends(dest: TreeView, d: NodeRef, source: TreeView, s: NodeRef) -> bool
    decreases dest.nodes.len() - d.at(),
{
    ||| dest.hash(d) == source.hash(s)
    ||| compared_at_once(dest, d, source, s) && (lists_edited(dest, d, source, s)
        ==> inserts_above_deletes(edit_script(dest.child_hashes(d), source.child_hashes(s))))
    ||| mixed(dest, d, source, s)
    ||| descends(dest, d, source, s) && forall|k: int|
        0 <= k < dest.children(d).len() && #[trigger] differs_at(dest, d, source, s, k) ==> d.at()
            < dest.children(d)[k].at() < dest.nodes.len() && mends(
            dest,
            dest.children(d)[k],
            source,
            source.children(s)[k],
        )
}

// The patched tree has the subtree below `d` as `dest` has it.
spec fn agrees(dest: TreeView, d: NodeRef, x: TreeView) -> bool {
    forall|y: NodeRef| is_below(dest, d, y) ==> #[trigger] x.node(y) == dest.node(y)
}

// A tree that has the subtree below `d` as `dest` has it has `d` so.
proof fn lemma_agrees_at(dest: TreeView, d: NodeRef, x: TreeView)
    requires
        dest.wf(),
        dest.contains(d),
        within(dest, d, x),
        agrees(dest, d, x),
    ensures
        same_at(dest, d, x),
{
    assert(dest.is_above(d, d));
    assert(x.node(d) == dest.node(d));
    assert(dest.node_wf(d));
    assert forall|k: int| 0 <= k < dest.children(d).len() implies x.hash(dest.children(d)[k])
        == dest.hash(dest.children(d)[k]) by {
        let c = dest.children(d)[k];
        assert(dest.contains(c));
        assert(dest.is_above(d, c));
        assert(x.node(c) == dest.node(c));
    }
    assert(x.child_hashes(d) =~= dest.child_hashes(d));
}

// A tree that has the subtree below `d` as `dest` has it has the subtree
// below a child of `d` so, and is within bounds for it.
proof fn lemma_agrees_child(dest: TreeView, d: NodeRef, c: NodeRef, x: TreeView)
    requires
        dest.wf(),
        dest.contains(d),
        is_below(dest, d, c),
        x.wf(),
        x.nodes.len() >= dest.nodes.len(),
        forall|y: NodeRef| #[trigger]
            dest.contains(y) ==> x.node(y).parent == dest.node(y).parent || x.node(y).parent is None,
        forall|y: NodeRef| is_below(dest, c, y) ==> #[trigger] x.node(y) == dest.node(y),
    ensures
        within(dest, c, x),
        agrees(dest, c, x),
{
    assert forall|y: NodeRef, k: int|
        is_below(dest, c, y) && 0 <= k < x.children(y).len() implies is_below(
        dest,
        c,
        #[trigger] x.children(y)[k],
    ) || x.children(y)[k].at() >= dest.nodes.len() by {
        assert(x.node(y) == dest.node(y));
        assert(dest.node_wf(y));
        let child = dest.children(y)[k];
        assert(dest.contains(child));
        assert(dest.is_above(c, child));
    }
}

// After a patch that ends with an operation on `d`, `d` and the nodes above
// it cache the subtree hashes that their data and children give.
proof fn lemma_chain_ok_last(
    dest: TreeView,
    d: NodeRef,
    states: Seq<TreeView>,
    ops: Seq<OpView>,
    source: TreeView,
)
    requires
        dest.wf(),
        source.wf(),
        dest.contains(d),
        within(dest, d, states[0]),
        dests_below(dest, d, ops),
        patch_steps(states, ops, source),
        ops.len() > 0,
        ops.last().dest() == d,
    ensures
        forall|y: NodeRef| #[trigger]
            states.last().contains(y) && states.last().is_above(y, d) ==> states.last().hash_ok(y),
{
    let m = ops.len() - 1;
    lemma_steps_within(dest, d, states, ops, source, m);
    assert(op_applied(states[m], states[m + 1], ops[m], source));
    lemma_op_within(dest, d, states[m], states[m + 1], ops[m], source);
}

// What holds of the patched tree `x` when the pairs of children from `upto`
// on were dealt with: `d` has the children and the data hash that the patch
// wants; its children are its children; those from `upto` on cache the
// hashes of the children of `s`; and the tree has the subtrees below the
// others as `dest` has them.
spec fn lifted(dest: TreeView, d: NodeRef, source: TreeView, s: NodeRef, upto: int, x: TreeView) -> bool {
    let n = dest.children(d).len();
    &&& x.wf()
    &&& x.contains(d)
    &&& x.nodes.len() >= dest.nodes.len()
    &&& forall|y: NodeRef| #[trigger]
        dest.contains(y) ==> x.node(y).parent == dest.node(y).parent || x.node(y).parent is None
    &&& x.node(d).children == dest.node(d).children
    &&& data_hash(x.node(d).data) == data_hash(source.node(s).data)
    &&& forall|i: int| 0 <= i < n ==> x.node(#[trigger] dest.children(d)[i]).parent == Some(d)
    &&& forall|i: int|
        upto <= i < n ==> x.hash(#[trigger] dest.children(d)[i]) == source.child_hashes(s)[i]
    &&& forall|i: int| 0 <= i < upto ==> agrees(dest, #[trigger] dest.children(d)[i], x)
}

// `d` and the nodes above it cache the subtree hashes that their data and
// children give.
spec fn chain_ok(x: TreeView, d: NodeRef) -> bool {
    forall|y: NodeRef| #[trigger] x.contains(y) && x.is_above(y, d) ==> x.hash_ok(y)
}

// Where each pair of children that differs is compared on its own, nothing
// is reported for wrappings.
proof fn lemma_descends_no_wraps(dest: TreeView, d: NodeRef, source: TreeView, s: NodeRef, k: int)
    requires
        descends(dest, d, source, s),
        0 <= k <= dest.children(d).len(),
    ensures
        wraps_diff(dest, d, source, s, k) == Seq::<OpView>::empty(),
    decreases k,
{
    if k > 0 {
        lemma_descends_no_wraps(dest, d, source, s, k - 1);
        if differs_at(dest, d, source, s, k - 1) {
            assert(!wraps_at(dest, d, source, s, k - 1));
        }
    }
}

// When the patches for the pairs of children begin, no pair is dealt with,
// and the tree has the subtrees below all children as `dest` has them.
proof fn lemma_lift_start(dest: TreeView, d: NodeRef, source: TreeView, s: NodeRef, states: Seq<TreeView>)
    requires
        dest.wf(),
        source.wf(),
        dest.contains(d),
        source.contains(s),
        descends(dest, d, source, s),
        patch_steps(states, diff_of(dest, d, source, s), source),
        within(dest, d, states[0]),
        agrees(dest, d, states[0]),
    ensures
        diff_of(dest, d, source, s) == data_diff(dest, d, source, s) + diff_below(
            dest,
            d,
            source,
            s,
            dest.children(d).len() as int,
        ),
        patch_steps(
            states.skip(data_diff(dest, d, source, s).len() as int),
            diff_below(dest, d, source, s, dest.children(d).len() as int),
            source,
        ),
        lifted(
            dest,
            d,
            source,
            s,
            dest.children(d).len() as int,
            states.skip(data_diff(dest, d, source, s).len() as int)[0],
        ),
{
    let n = dest.children(d).len() as int;
    let ops = diff_of(dest, d, source, s);
    let head = data_diff(dest, d, source, s);
    let below = diff_below(dest, d, source, s, n);
    lemma_descends_no_wraps(dest, d, source, s, n);
    assert(pair_diff(dest, d, source, s) =~= head);
    assert(ops =~= head + below);
    lemma_steps_from(states, ops, source, head.len() as int);
    let later = states.skip(head.len() as int);
    assert(ops.skip(head.len() as int) =~= below);
    let x0 = states[0];
    lemma_agrees_at(dest, d, x0);
    assert(dest.node_wf(d));
    assert(x0.node_wf(d));
    assert(dest.is_above(d, d));
    assert forall|i: int| 0 <= i < n implies agrees(dest, #[trigger] dest.children(d)[i], x0) by {
        let c = dest.children(d)[i];
        assert(dest.contains(c));
        assert(dest.is_above(d, c));
        assert forall|y: NodeRef| is_below(dest, c, y) implies #[trigger] x0.node(y) == dest.node(
            y,
        ) by {
            dest.lemma_above_trans(d, c, y);
        }
    }
    assert forall|i: int| 0 <= i < n implies x0.node(#[trigger] dest.children(d)[i]).parent == Some(
        d,
    ) by {
        assert(x0.children(d)[i] == dest.children(d)[i]);
    }
    if head.len() > 0 {
        let replace = OpView::ReplaceNode { dest: d, source: s };
        let x1 = states[1];
        assert(ops[0] == replace);
        assert(op_applied(states[0], states[0int + 1], ops[0], source));
        lemma_op_on_dest(x0, x1, replace, source);
        lemma_replace_node_frame(x0, x1, d, s, source);
        assert(later[0] == x1);
        assert forall|y: NodeRef| #[trigger] dest.contains(y) implies x1.node(y).parent == dest.node(
            y,
        ).parent || x1.node(y).parent is None by {
            assert(x0.contains(y));
        }
        assert forall|i: int| 0 <= i < n implies x1.node(#[trigger] dest.children(d)[i]).parent
            == Some(d) by {
            assert(x0.contains(dest.children(d)[i]));
        }
        assert forall|i: int| 0 <= i < n implies agrees(dest, #[trigger] dest.children(d)[i], x1) by {
            let c = dest.children(d)[i];
            assert(dest.contains(c));
            assert(agrees(dest, c, x0));
            assert forall|y: NodeRef| is_below(dest, c, y) implies #[trigger] x1.node(y)
                == dest.node(y) by {
                assert(x0.contains(y));
                dest.lemma_above_slot(c, y);
                if x0.is_above(y, d) {
                    x0.lemma_above_slot(y, d);
                }
                assert(x0.node(y) == dest.node(y));
            }
        }
    } else {
        assert(later[0] == x0);
    }
}

// A pair of children that does not differ is dealt with as it is.
proof fn lemma_lift_skip(dest: TreeView, d: NodeRef, source: TreeView, s: NodeRef, upto: int, x: TreeView)
    requires
        dest.wf(),
        source.wf(),
        dest.contains(d),
        source.contains(s),
        pairs_compared(dest, d, source, s),
        0 < upto <= dest.children(d).len(),
        !differs_at(dest, d, source, s, upto - 1),
        lifted(dest, d, source, s, upto, x),
    ensures
        lifted(dest, d, source, s, upto - 1, x),
{
    let c = dest.children(d)[upto - 1];
    assert(dest.node_wf(d));
    assert(dest.contains(c));
    assert(agrees(dest, c, x));
    assert(dest.is_above(c, c));
    assert(x.node(c) == dest.node(c));
}

// The patch for a pair of children that has mended the child deals with the
// pair, and leaves the subtrees below the other children alone.
proof fn lemma_lift_step(
    dest: TreeView,
    d: NodeRef,
    source: TreeView,
    s: NodeRef,
    upto: int,
    states: Seq<TreeView>,
)
    requires
        dest.wf(),
        source.wf(),
        dest.contains(d),
        source.contains(s),
        pairs_compared(dest, d, source, s),
        0 < upto <= dest.children(d).len(),
        d.at() < dest.children(d)[upto - 1].at() < dest.nodes.len(),
        lifted(dest, d, source, s, upto, states[0]),
        patch_steps(
            states,
            diff_of(dest, dest.children(d)[upto - 1], source, source.children(s)[upto - 1]),
            source,
        ),
        dests_below(
            dest,
            dest.children(d)[upto - 1],
            diff_of(dest, dest.children(d)[upto - 1], source, source.children(s)[upto - 1]),
        ),
        states.last().hash(dest.children(d)[upto - 1]) == source.hash(source.children(s)[upto - 1]),
        chain_ok(states.last(), dest.children(d)[upto - 1]),
    ensures
        lifted(dest, d, source, s, upto - 1, states.last()),
        chain_ok(states.last(), d),
{
    let n = dest.children(d).len() as int;
    let k = upto - 1;
    let c = dest.children(d)[k];
    let sub = diff_of(dest, c, source, source.children(s)[k]);
    let x = states[0];
    let last = states.last();
    assert(dest.node_wf(d));
    assert(dest.contains(c));
    assert(dest.is_above(c, c));
    assert(agrees(dest, c, x));
    lemma_agrees_child(dest, c, c, x);
    lemma_steps_within(dest, c, states, sub, source, sub.len() as int);
    assert(!is_below(dest, c, d)) by {
        if dest.is_above(c, d) {
            dest.lemma_above_slot(c, d);
        }
    }
    assert(last.node(d).children == x.node(d).children);
    assert(last.node(d).data == x.node(d).data);
    assert(x.node(c).parent == Some(d));
    assert(last.node(c).parent == Some(d));
    // The other children lie outside the subtree below the child, and not
    // above it.
    assert forall|i: int| 0 <= i < n && i != k implies !is_below(
        dest,
        c,
        #[trigger] dest.children(d)[i],
    ) && !dest.is_above(dest.children(d)[i], c) by {
        let ci = dest.children(d)[i];
        assert(dest.contains(ci));
        assert(ci != c) by {
            if i < k {
                assert(dest.children(d)[i] != dest.children(d)[k]);
            } else {
                assert(dest.children(d)[k] != dest.children(d)[i]);
            }
        }
        if dest.is_above(c, ci) {
            dest.lemma_above_slot(c, d);
        }
        if dest.is_above(ci, c) {
            dest.lemma_above_slot(ci, d);
        }
    }
    assert forall|i: int| 0 <= i < n implies last.node(#[trigger] dest.children(d)[i]).parent
        == Some(d) by {
        if i != k {
            assert(dest.contains(dest.children(d)[i]));
        }
    }
    assert forall|i: int| upto - 1 <= i < n implies last.hash(#[trigger] dest.children(d)[i])
        == source.child_hashes(s)[i] by {
        if i != k {
            assert(dest.contains(dest.children(d)[i]));
            assert(x.hash(dest.children(d)[i]) == source.child_hashes(s)[i]);
        } else {
            assert(source.child_hashes(s)[k] == source.hash(source.children(s)[k]));
        }
    }
    assert forall|i: int| 0 <= i < upto - 1 implies agrees(dest, #[trigger] dest.children(d)[i], last) by {
        let ci = dest.children(d)[i];
        assert(agrees(dest, ci, x));
        assert(!is_below(dest, c, ci) && !dest.is_above(ci, c));
        assert forall|y: NodeRef| is_below(dest, ci, y) implies #[trigger] last.node(y)
            == dest.node(y) by {
            // A node below another child is not below this one, nor above it.
            if dest.is_above(c, y) {
                dest.lemma_above_comparable(c, ci, y);
            }
            if dest.is_above(y, c) {
                dest.lemma_above_trans(ci, y, c);
            }
            assert(x.node(y) == dest.node(y));
        }
    }
    assert(last.contains(d));
    assert(last.is_above(d, d));
    assert(last.is_above(d, c));
    assert forall|y: NodeRef| #[trigger] last.contains(y) && last.is_above(y, d) implies last.hash_ok(
        y,
    ) by {
        last.lemma_above_trans(y, d, c);
    }
}

// When all pairs of children are dealt with, the destination node is
// mended.
proof fn lemma_lift_finish(dest: TreeView, d: NodeRef, source: TreeView, s: NodeRef, x: TreeView)
    requires
        dest.wf(),
        source.wf(),
        dest.contains(d),
        source.contains(s),
        source.hash_ok(s),
        pairs_compared(dest, d, source, s),
        lifted(dest, d, source, s, 0, x),
        chain_ok(x, d),
    ensures
        x.hash(d) == source.hash(s),
{
    assert(x.is_above(d, d));
    assert(x.hash_ok(d));
    assert(x.child_hashes(d) =~= source.child_hashes(s));
}

// The patches for the first `upto` pairs of children deal with them.
proof fn lemma_descend(
    dest: TreeView,
    d: NodeRef,
    source: TreeView,
    s: NodeRef,
    upto: int,
    states: Seq<TreeView>,
)
    requires
        dest.wf(),
        source.wf(),
        dest.contains(d),
        source.contains(s),
        dest.hashed(),
        source.hashed(),
        descends(dest, d, source, s),
        forall|k: int|
            0 <= k < dest.children(d).len() && #[trigger] differs_at(dest, d, source, s, k) ==> d.at()
                < dest.children(d)[k].at() < dest.nodes.len() && mends(
                dest,
                dest.children(d)[k],
                source,
                source.children(s)[k],
            ),
        0 <= upto <= dest.children(d).len(),
        lifted(dest, d, source, s, upto, states[0]),
        patch_steps(states, diff_below(dest, d, source, s, upto), source),
    ensures
        lifted(dest, d, source, s, 0, states.last()),
        dests_below(dest, d, diff_below(dest, d, source, s, upto)),
        (exists|j: int| 0 <= j < upto && differs_at(dest, d, source, s, j)) ==> chain_ok(
            states.last(),
            d,
        ),
        (forall|j: int| 0 <= j < upto ==> !differs_at(dest, d, source, s, j)) ==> states.last()
            == states[0],
    decreases dest.nodes.len() - d.at(), 0int, upto,
{
    if upto > 0 {
        let k = upto - 1;
        let ops = diff_below(dest, d, source, s, upto);
        let c = dest.children(d)[k];
        let from = source.children(s)[k];
        let first = if descends_at(dest, d, source, s, k) {
            diff_of(dest, c, source, from)
        } else {
            Seq::<OpView>::empty()
        };
        let rest = diff_below(dest, d, source, s, k);
        assert(ops == first + rest);
        assert(dest.node_wf(d));
        assert(source.node_wf(s));
        lemma_steps_upto(states, ops, source, first.len() as int);
        lemma_steps_from(states, ops, source, first.len() as int);
        let earlier = states.take(first.len() as int + 1);
        let later = states.skip(first.len() as int);
        assert(ops.take(first.len() as int) =~= first);
        assert(ops.skip(first.len() as int) =~= rest);
        assert(earlier[0] == states[0]);
        assert(earlier.last() == later[0]);
        assert(later.last() == states.last());
        assert(dest.is_above(d, d));
        if differs_at(dest, d, source, s, k) {
            assert(descends_at(dest, d, source, s, k));
            assert(dest.contains(c));
            assert(source.contains(from));
            assert(agrees(dest, c, states[0]));
            assert(dest.is_above(c, c));
            lemma_agrees_child(dest, c, c, states[0]);
            lemma_mends_core(dest, c, source, from, earlier);
            lemma_lift_step(dest, d, source, s, upto, earlier);
            assert(dest.is_above(d, c));
            assert forall|j: int| 0 <= j < first.len() implies is_below(
                dest,
                d,
                (#[trigger] first[j]).dest(),
            ) by {
                assert(is_below(dest, c, first[j].dest()));
                dest.lemma_above_trans(d, c, first[j].dest());
            }
        } else {
            lemma_lift_skip(dest, d, source, s, upto, states[0]);
            assert(earlier.last() == earlier[0]);
        }
        lemma_descend(dest, d, source, s, k, later);
        assert forall|j: int| 0 <= j < ops.len() implies is_below(dest, d, (#[trigger] ops[j]).dest()) by {
            if j < first.len() {
                assert(ops[j] == first[j]);
            } else {
                assert(ops[j] == rest[j - first.len()]);
            }
        }
        if exists|j: int| 0 <= j < upto && differs_at(dest, d, source, s, j) {
            if exists|j: int| 0 <= j < k && differs_at(dest, d, source, s, j) {
            } else {
                let j = choose|j: int| 0 <= j < upto && differs_at(dest, d, source, s, j);
                assert(j == k);
                assert(later.last() == later[0]);
            }
        }
    }
}

/// An operation leaves every cached hash alone but those of the changed
/// node and of the nodes above it, which it makes anew: a cached hash that
/// was right stays right, and those of the changed node and of the nodes
/// above it are right.
pub proof fn lemma_op_keeps_hashes(before: TreeView, after: TreeView, op: OpView, source: TreeView)
    requires
        before.wf(),
        source.wf(),
        op_applied(before, after, op, source),
    ensures
        after.wf(),
        after.nodes.len() >= before.nodes.len(),
        forall|y: NodeRef| #[trigger]
            before.contains(y) && before.hash_ok(y) ==> after.hash_ok(y),
        forall|y: NodeRef| #[trigger]
            before.contains(y) && !after.is_above(y, op.dest()) ==> after.hash(y) == before.hash(y),
        before.contains(op.dest()) ==> forall|y: NodeRef| #[trigger]
            after.contains(y) && after.is_above(y, op.dest()) ==> after.hash_ok(y),
        forall|y: NodeRef| #[trigger]
            before.contains(y) ==> after.node(y).parent == before.node(y).parent || after.node(
                y,
            ).parent is None,
{
    let x = op.dest();
    let mid = choose|mid: TreeView|
        {
            &&& #[trigger] op_changes(before, mid, op, source)
            &&& mid.wf()
            &&& after.wf()
            &&& if mid.contains(op.dest()) {
                mid.rehashed_from(after, op.dest())
            } else {
                after == mid
            }
        };
    lemma_change_frame(before, mid, op, source);
    if mid.contains(x) {
        assert forall|z: NodeRef| #[trigger] mid.contains(z) implies after.node(z).parent == mid.node(
            z,
        ).parent by {
        }
        assert forall|y: NodeRef| #[trigger] before.contains(y) && !after.is_above(y, x) implies after.hash(
            y,
        ) == before.hash(y) by {
            assert(mid.contains(y));
            mid.lemma_above_same_parents(after, y, x);
        }
        assert forall|y: NodeRef| #[trigger] after.contains(y) && after.is_above(y, x) implies after.hash_ok(
            y,
        ) by {
            mid.lemma_above_same_parents(after, y, x);
            mid.lemma_above_slot(y, x);
            assert(mid.contains(y));
        }
        assert forall|y: NodeRef| #[trigger] before.contains(y) && before.hash_ok(y) implies after.hash_ok(
            y,
        ) by {
            assert(mid.contains(y));
            if y == x {
                assert(mid.is_above(x, x));
            } else {
                assert(before.node_wf(y));
                assert(mid.children(y) == before.children(y));
                assert forall|k: int| 0 <= k < before.children(y).len() implies mid.hash(
                    #[trigger] before.children(y)[k],
                ) == before.hash(before.children(y)[k]) by {
                    assert(before.contains(before.children(y)[k]));
                }
                before.lemma_hash_ok_frame(mid, y);
                mid.lemma_rehash_keeps(after, x, y);
            }
        }
        assert forall|y: NodeRef| #[trigger] before.contains(y) implies after.node(y).parent
            == before.node(y).parent || after.node(y).parent is None by {
            assert(mid.contains(y));
        }
    } else {
        assert(!before.contains(x));
        assert(mid == before);
        assert forall|y: NodeRef| #[trigger] before.contains(y) && !after.is_above(y, x) implies after.hash(
            y,
        ) == before.hash(y) by {
        }
    }
}

// What holds of the patched tree `x` while the children of `d` are dealt
// with in any order: the tree is within bounds for the subtree below each
// child that `d` had; `d` has as many children as it had; the children that
// did not differ have their hashes; and each child that `d` had is in its
// place, or has no parent and a copy with the hash of the child of `s` in
// its place.
spec fn attended(dest: TreeView, d: NodeRef, source: TreeView, s: NodeRef, x: TreeView) -> bool {
    let n = dest.children(d).len();
    &&& x.wf()
    &&& x.contains(d)
    &&& x.nodes.len() >= dest.nodes.len()
    &&& forall|y: NodeRef| #[trigger]
        dest.contains(y) ==> x.node(y).parent == dest.node(y).parent || x.node(y).parent is None
    &&& forall|k: int| 0 <= k < n ==> within(dest, #[trigger] dest.children(d)[k], x)
    &&& x.children(d).len() == n
    &&& forall|i: int|
        0 <= i < n && dest.child_hashes(d)[i] == source.child_hashes(s)[i] ==> #[trigger] x.child_hashes(
            d,
        )[i] == source.child_hashes(s)[i]
    &&& forall|k: int|
        0 <= k < n ==> x.children(d)[k] == #[trigger] dest.children(d)[k] || (x.children(d)[k].at()
            >= dest.nodes.len() && x.node(dest.children(d)[k]).parent is None && x.child_hashes(
            d,
        )[k] == source.child_hashes(s)[k])
}

// The same, and `d` has data with the hash of the data of `s`.
spec fn tended(dest: TreeView, d: NodeRef, source: TreeView, s: NodeRef, x: TreeView) -> bool {
    &&& attended(dest, d, source, s, x)
    &&& data_hash(x.node(d).data) == data_hash(source.node(s).data)
}

// The subtrees below two children of a node have no node in common, and no
// child stands above a node below another.
proof fn lemma_branches_apart(dest: TreeView, d: NodeRef, j: int, k: int, y: NodeRef)
    requires
        dest.wf(),
        dest.contains(d),
        0 <= j < dest.children(d).len(),
        0 <= k < dest.children(d).len(),
        j != k,
        is_below(dest, dest.children(d)[k], y),
    ensures
        !is_below(dest, dest.children(d)[j], y),
        !dest.is_above(y, dest.children(d)[j]),
        y != d,
        !dest.is_above(y, d),
{
    let cj = dest.children(d)[j];
    let ck = dest.children(d)[k];
    assert(dest.node_wf(d));
    assert(cj != ck) by {
        if j < k {
            assert(dest.children(d)[j] != dest.children(d)[k]);
        } else {
            assert(dest.children(d)[k] != dest.children(d)[j]);
        }
    }
    dest.lemma_above_slot(ck, y);
    if dest.is_above(cj, y) {
        dest.lemma_above_comparable(cj, ck, y);
        if dest.is_above(cj, ck) {
            dest.lemma_above_slot(cj, d);
        } else {
            dest.lemma_above_slot(ck, d);
        }
    }
    if dest.is_above(y, cj) {
        if y != cj {
            dest.lemma_above_slot(y, d);
        }
    }
    if dest.is_above(y, d) {
        dest.lemma_above_slot(y, d);
    }
}

// An operation on a node below a child of `d` that differed keeps what is
// tended.
proof fn lemma_tend_branch(
    dest: TreeView,
    d: NodeRef,
    source: TreeView,
    s: NodeRef,
    before: TreeView,
    after: TreeView,
    op: OpView,
    k: int,
)
    requires
        dest.wf(),
        source.wf(),
        dest.contains(d),
        tended(dest, d, source, s, before),
        0 <= k < dest.children(d).len(),
        dest.child_hashes(d)[k] != source.child_hashes(s)[k],
        is_below(dest, dest.children(d)[k], op.dest()),
        op_applied(before, after, op, source),
    ensures
        tended(dest, d, source, s, after),
{
    let n = dest.children(d).len() as int;
    let ck = dest.children(d)[k];
    let x = op.dest();
    assert(dest.node_wf(d));
    assert(before.node_wf(d));
    assert(dest.contains(ck));
    assert(within(dest, ck, before));
    lemma_op_within(dest, ck, before, after, op, source);
    lemma_op_keeps_hashes(before, after, op, source);
    assert forall|y: NodeRef| #[trigger] dest.contains(y) implies after.node(y).parent == dest.node(
        y,
    ).parent || after.node(y).parent is None by {
        assert(before.contains(y));
    }
    dest.lemma_above_slot(ck, x);
    assert(!is_below(dest, ck, d)) by {
        if dest.is_above(ck, d) {
            dest.lemma_above_slot(ck, d);
        }
    }
    assert(after.node(d).children == before.node(d).children);
    assert(after.node(d).data == before.node(d).data);
    // The tree stays within bounds for the subtrees below the other children.
    assert forall|j: int| 0 <= j < n implies within(dest, #[trigger] dest.children(d)[j], after) by {
        let cj = dest.children(d)[j];
        if j != k {
            assert(within(dest, cj, before));
            assert forall|y: NodeRef, i: int|
                is_below(dest, cj, y) && 0 <= i < after.children(y).len() implies is_below(
                dest,
                cj,
                #[trigger] after.children(y)[i],
            ) || after.children(y)[i].at() >= dest.nodes.len() by {
                lemma_branches_apart(dest, d, k, j, y);
                assert(after.node(y).children == before.node(y).children);
                assert(is_below(dest, cj, before.children(y)[i]) || before.children(y)[i].at()
                    >= dest.nodes.len());
            }
        }
    }
    // A child of `d` whose cached hash has changed is the child at `k`, in
    // its place.
    assert forall|i: int| 0 <= i < n && after.hash(before.children(d)[i]) != before.hash(
        before.children(d)[i],
    ) implies i == k && before.children(d)[k] == ck by {
        let z = before.children(d)[i];
        assert(before.contains(z));
        assert(before.node(z).parent == Some(d));
        assert(after.is_above(z, x));
        dest.lemma_above_pruned(after, z, x);
        dest.lemma_above_slot(z, x);
        assert(dest.contains(z));
        assert(dest.node(z).parent == Some(d));
        dest.lemma_above_comparable(z, ck, x);
        if dest.is_above(z, ck) {
            if z != ck {
                dest.lemma_above_slot(z, d);
            }
        } else {
            if z != ck {
                dest.lemma_above_slot(ck, d);
            }
        }
        assert(z == ck);
        if i != k {
            if before.children(d)[k] == ck {
                if i < k {
                    assert(before.children(d)[i] != before.children(d)[k]);
                } else {
                    assert(before.children(d)[k] != before.children(d)[i]);
                }
            }
        }
    }
    assert forall|i: int|
        0 <= i < n && dest.child_hashes(d)[i] == source.child_hashes(s)[i] implies #[trigger] after.child_hashes(
        d,
    )[i] == source.child_hashes(s)[i] by {
        assert(before.child_hashes(d)[i] == source.child_hashes(s)[i]);
    }
    assert forall|j: int| 0 <= j < n implies after.children(d)[j] == #[trigger] dest.children(d)[j]
        || (after.children(d)[j].at() >= dest.nodes.len() && after.node(dest.children(d)[j]).parent is None
        && after.child_hashes(d)[j] == source.child_hashes(s)[j]) by {
        let cj = dest.children(d)[j];
        assert(dest.contains(cj));
        assert(before.contains(cj));
        if before.children(d)[j] != cj {
            assert(before.child_hashes(d)[j] == source.child_hashes(s)[j]);
        }
    }
}

// What the setting of the children does to the child list of the parent and
// to the other nodes: the copies stand in fresh slots; the former children
// have no parent; every other node has the parent that it had; and no node
// but the parent has other children.
proof fn lemma_set_children_frame(
    before: TreeView,
    after: TreeView,
    d: NodeRef,
    nodes: Seq<NodeRef>,
    source: TreeView,
)
    requires
        before.wf(),
        source.wf(),
        before.contains(d),
        forall|k: int| 0 <= k < nodes.len() ==> source.contains(#[trigger] nodes[k]),
        op_applied(before, after, OpView::SetChildren { dest: d, nodes }, source),
    ensures
        after.nodes.len() >= before.nodes.len(),
        after.children(d).len() == nodes.len(),
        forall|k: int|
            0 <= k < nodes.len() ==> (#[trigger] after.children(d)[k]).at() >= before.nodes.len(),
        forall|y: NodeRef| #[trigger]
            before.contains(y) ==> after.node(y).parent == if before.children(d).contains(y) {
                None
            } else {
                before.node(y).parent
            },
        forall|y: NodeRef| #[trigger]
            before.contains(y) && y != d ==> after.node(y).children == before.node(y).children,
{
    let op = OpView::SetChildren { dest: d, nodes };
    let mid = choose|mid: TreeView|
        {
            &&& #[trigger] op_changes(before, mid, op, source)
            &&& mid.wf()
            &&& after.wf()
            &&& if mid.contains(op.dest()) {
                mid.rehashed_from(after, op.dest())
            } else {
                after == mid
            }
        };
    assert(before.node_wf(d));
    assert(mid.contains(d));
    assert(after.children(d) == mid.children(d));
    assert forall|y: NodeRef| #[trigger] before.contains(y) implies after.node(y).parent == if before.children(
        d,
    ).contains(y) {
        None
    } else {
        before.node(y).parent
    } by {
        assert(mid.contains(y));
        if before.children(d).contains(d) {
            let w = choose|w: int| 0 <= w < before.children(d).len() && before.children(d)[w] == d;
            assert(d.at() < before.children(d)[w].at());
        }
    }
    assert forall|y: NodeRef| #[trigger] before.contains(y) && y != d implies after.node(y).children
        == before.node(y).children by {
        assert(mid.contains(y));
    }
}

// The replacement of the data of `d` by the data of `s` keeps what is
// tended.
proof fn lemma_tend_replace_node(
    dest: TreeView,
    d: NodeRef,
    source: TreeView,
    s: NodeRef,
    before: TreeView,
    after: TreeView,
)
    requires
        dest.wf(),
        source.wf(),
        dest.contains(d),
        source.contains(s),
        attended(dest, d, source, s, before),
        op_applied(before, after, OpView::ReplaceNode { dest: d, source: s }, source),
    ensures
        tended(dest, d, source, s, after),
{
    let n = dest.children(d).len() as int;
    let op = OpView::ReplaceNode { dest: d, source: s };
    lemma_op_on_dest(before, after, op, source);
    lemma_replace_node_frame(before, after, d, s, source);
    assert(before.node_wf(d));
    assert forall|y: NodeRef| #[trigger] dest.contains(y) implies after.node(y).parent == dest.node(
        y,
    ).parent || after.node(y).parent is None by {
        assert(before.contains(y));
    }
    assert forall|j: int| 0 <= j < n implies within(dest, #[trigger] dest.children(d)[j], after) by {
        let cj = dest.children(d)[j];
        assert(within(dest, cj, before));
        assert forall|y: NodeRef, i: int|
            is_below(dest, cj, y) && 0 <= i < after.children(y).len() implies is_below(
            dest,
            cj,
            #[trigger] after.children(y)[i],
        ) || after.children(y)[i].at() >= dest.nodes.len() by {
            assert(before.contains(y));
            assert(is_below(dest, cj, before.children(y)[i]) || before.children(y)[i].at()
                >= dest.nodes.len());
        }
    }
    assert(after.children(d) == before.children(d));
    assert forall|j: int| 0 <= j < n implies after.children(d)[j] == #[trigger] dest.children(d)[j]
        || (after.children(d)[j].at() >= dest.nodes.len() && after.node(dest.children(d)[j]).parent is None
        && after.child_hashes(d)[j] == source.child_hashes(s)[j]) by {
        let cj = dest.children(d)[j];
        assert(dest.node_wf(d));
        assert(dest.contains(cj));
        assert(before.contains(cj));
    }
}

// The setting of the children of `d` to the children of `s` keeps what is
// tended, and leaves no child that `d` had in its place.
proof fn lemma_tend_set_children(
    dest: TreeView,
    d: NodeRef,
    source: TreeView,
    s: NodeRef,
    before: TreeView,
    after: TreeView,
)
    requires
        dest.wf(),
        source.wf(),
        dest.contains(d),
        source.contains(s),
        dest.children(d).len() == source.children(s).len(),
        tended(dest, d, source, s, before),
        op_applied(
            before,
            after,
            OpView::SetChildren { dest: d, nodes: source.children(s) },
            source,
        ),
    ensures
        tended(dest, d, source, s, after),
        forall|k: int|
            0 <= k < dest.children(d).len() ==> after.node(#[trigger] dest.children(d)[k]).parent is None,
{
    let n = dest.children(d).len() as int;
    let nodes = source.children(s);
    let op = OpView::SetChildren { dest: d, nodes };
    assert(source.node_wf(s));
    assert(dest.node_wf(d));
    assert(before.node_wf(d));
    assert forall|k: int| 0 <= k < nodes.len() implies source.contains(#[trigger] nodes[k]) by {
    }
    lemma_op_on_dest(before, after, op, source);
    lemma_set_children_frame(before, after, d, nodes, source);
    assert(op_valid(before, op, source));
    assert(after.child_hashes(d) =~= source.child_hashes(s));
    assert forall|y: NodeRef| #[trigger] dest.contains(y) implies after.node(y).parent == dest.node(
        y,
    ).parent || after.node(y).parent is None by {
        assert(before.contains(y));
    }
    assert forall|j: int| 0 <= j < n implies within(dest, #[trigger] dest.children(d)[j], after) by {
        let cj = dest.children(d)[j];
        assert(within(dest, cj, before));
        assert(dest.contains(cj));
        assert forall|y: NodeRef, i: int|
            is_below(dest, cj, y) && 0 <= i < after.children(y).len() implies is_below(
            dest,
            cj,
            #[trigger] after.children(y)[i],
        ) || after.children(y)[i].at() >= dest.nodes.len() by {
            assert(before.contains(y));
            dest.lemma_above_slot(cj, y);
            assert(y != d);
            assert(is_below(dest, cj, before.children(y)[i]) || before.children(y)[i].at()
                >= dest.nodes.len());
        }
    }
    assert forall|j: int| 0 <= j < n implies after.node(#[trigger] dest.children(d)[j]).parent is None by {
        let cj = dest.children(d)[j];
        assert(dest.contains(cj));
        assert(before.contains(cj));
        if before.children(d)[j] == cj {
            assert(before.children(d).contains(cj));
        }
    }
}

// The replacement of a child that differed by a copy of the child of `s`
// keeps what is tended, and leaves the child that `d` had there without a
// parent.
proof fn lemma_tend_replace_child(
    dest: TreeView,
    d: NodeRef,
    source: TreeView,
    s: NodeRef,
    before: TreeView,
    after: TreeView,
    k: int,
)
    requires
        dest.wf(),
        source.wf(),
        dest.contains(d),
        source.contains(s),
        dest.children(d).len() == source.children(s).len(),
        dest.children(d).len() <= usize::MAX,
        tended(dest, d, source, s, before),
        0 <= k < dest.children(d).len(),
        dest.child_hashes(d)[k] != source.child_hashes(s)[k],
        op_applied(
            before,
            after,
            OpView::ReplaceChild { dest: d, index: k as usize, source: source.children(s)[k] },
            source,
        ),
    ensures
        tended(dest, d, source, s, after),
        after.node(dest.children(d)[k]).parent is None,
{
    let n = dest.children(d).len() as int;
    let from = source.children(s)[k];
    let op = OpView::ReplaceChild { dest: d, index: k as usize, source: from };
    assert(source.node_wf(s));
    assert(dest.node_wf(d));
    assert(before.node_wf(d));
    assert(source.contains(from));
    lemma_op_on_dest(before, after, op, source);
    lemma_replace_child_frame(before, after, d, k as usize, from, source);
    lemma_op_keeps_hashes(before, after, op, source);
    assert(op_valid(before, op, source));
    assert(after.child_hashes(d) == before.child_hashes(d).update(k, source.child_hashes(s)[k]));
    assert(after.children(d).len() == after.child_hashes(d).len());
    assert forall|y: NodeRef| #[trigger] dest.contains(y) implies after.node(y).parent == dest.node(
        y,
    ).parent || after.node(y).parent is None by {
        assert(before.contains(y));
    }
    assert forall|j: int| 0 <= j < n implies within(dest, #[trigger] dest.children(d)[j], after) by {
        let cj = dest.children(d)[j];
        assert(within(dest, cj, before));
        assert(dest.contains(cj));
        assert forall|y: NodeRef, i: int|
            is_below(dest, cj, y) && 0 <= i < after.children(y).len() implies is_below(
            dest,
            cj,
            #[trigger] after.children(y)[i],
        ) || after.children(y)[i].at() >= dest.nodes.len() by {
            assert(before.contains(y));
            dest.lemma_above_slot(cj, y);
            assert(y != d);
            lemma_others_children(before, after, op, source, y);
            assert(is_below(dest, cj, before.children(y)[i]) || before.children(y)[i].at()
                >= dest.nodes.len());
        }
    }
    assert forall|j: int| 0 <= j < n implies after.children(d)[j] == #[trigger] dest.children(d)[j]
        || (after.children(d)[j].at() >= dest.nodes.len() && after.node(dest.children(d)[j]).parent is None
        && after.child_hashes(d)[j] == source.child_hashes(s)[j]) by {
        let cj = dest.children(d)[j];
        assert(dest.contains(cj));
        assert(before.contains(cj));
    }
    assert(dest.contains(dest.children(d)[k]));
}

// An operation leaves the child lists of all nodes but the changed one
// alone.
proof fn lemma_others_children(before: TreeView, after: TreeView, op: OpView, source: TreeView, y: NodeRef)
    requires
        before.wf(),
        source.wf(),
        op_applied(before, after, op, source),
        before.contains(y),
        y != op.dest(),
    ensures
        after.node(y).children == before.node(y).children,
        after.node(y).data == before.node(y).data,
{
    let mid = choose|mid: TreeView|
        {
            &&& #[trigger] op_changes(before, mid, op, source)
            &&& mid.wf()
            &&& after.wf()
            &&& if mid.contains(op.dest()) {
                mid.rehashed_from(after, op.dest())
            } else {
                after == mid
            }
        };
    lemma_change_frame(before, mid, op, source);
    assert(mid.contains(y));
}

// The operation replaces the child of `d` at `k` by a copy of the child of
// `s` at `k`.
spec fn replaces_at(d: NodeRef, source: TreeView, s: NodeRef, op: OpView, k: int) -> bool {
    op == (OpView::ReplaceChild { dest: d, index: k as usize, source: source.children(s)[k] })
}

// The operation is one of those that deal with the children of `d`: it
// gives `d` the data or the children of `s`, replaces a child that differed
// by a copy of the child of `s`, or changes a node below a child that
// differed.
spec fn tends(dest: TreeView, d: NodeRef, source: TreeView, s: NodeRef, op: OpView) -> bool {
    ||| op == (OpView::ReplaceNode { dest: d, source: s })
    ||| op == (OpView::SetChildren { dest: d, nodes: source.children(s) })
    ||| exists|k: int| #[trigger] tends_at(dest, d, source, s, op, k)
}

// The operation replaces the child of `d` at `k`, which differed, or
// changes a node below it.
spec fn tends_at(dest: TreeView, d: NodeRef, source: TreeView, s: NodeRef, op: OpView, k: int) -> bool {
    0 <= k < dest.children(d).len() && dest.child_hashes(d)[k] != source.child_hashes(s)[k] && (
    replaces_at(d, source, s, op, k) || is_below(dest, dest.children(d)[k], op.dest()))
}

// The operation leaves the child that `d` had at `k` without a parent.
spec fn covers(d: NodeRef, source: TreeView, s: NodeRef, op: OpView, k: int) -> bool {
    op == (OpView::SetChildren { dest: d, nodes: source.children(s) }) || replaces_at(
        d,
        source,
        s,
        op,
        k,
    )
}

// One operation that deals with the children of `d` keeps what is tended.
proof fn lemma_tend_step(
    dest: TreeView,
    d: NodeRef,
    source: TreeView,
    s: NodeRef,
    before: TreeView,
    after: TreeView,
    op: OpView,
)
    requires
        dest.wf(),
        source.wf(),
        dest.contains(d),
        source.contains(s),
        dest.children(d).len() == source.children(s).len(),
        dest.children(d).len() <= usize::MAX,
        tended(dest, d, source, s, before),
        tends(dest, d, source, s, op),
        op_applied(before, after, op, source),
    ensures
        tended(dest, d, source, s, after),
        forall|k: int|
            0 <= k < dest.children(d).len() && covers(d, source, s, op, k) ==> after.node(
                #[trigger] dest.children(d)[k],
            ).parent is None,
{
    if op == (OpView::ReplaceNode { dest: d, source: s }) {
        lemma_tend_replace_node(dest, d, source, s, before, after);
    } else if op == (OpView::SetChildren { dest: d, nodes: source.children(s) }) {
        lemma_tend_set_children(dest, d, source, s, before, after);
    } else {
        let k = choose|k: int| #[trigger] tends_at(dest, d, source, s, op, k);
        if replaces_at(d, source, s, op, k) {
            lemma_tend_replace_child(dest, d, source, s, before, after, k);
            assert forall|j: int|
                0 <= j < dest.children(d).len() && covers(d, source, s, op, j) implies after.node(
                #[trigger] dest.children(d)[j],
            ).parent is None by {
                assert(j as usize == k as usize);
            }
        } else {
            lemma_tend_branch(dest, d, source, s, before, after, op, k);
            assert(dest.node_wf(d));
            dest.lemma_above_slot(dest.children(d)[k], op.dest());
        }
    }
}

// Operations that deal with the children of `d` keep what is tended; a
// child that an operation has left without a parent stays so; and once `d`
// itself was changed, `d` and the nodes above it cache the subtree hashes
// that their data and children give.
proof fn lemma_tend_steps(
    dest: TreeView,
    d: NodeRef,
    source: TreeView,
    s: NodeRef,
    states: Seq<TreeView>,
    ops: Seq<OpView>,
    m: int,
)
    requires
        dest.wf(),
        source.wf(),
        dest.contains(d),
        source.contains(s),
        dest.children(d).len() == source.children(s).len(),
        dest.children(d).len() <= usize::MAX,
        tended(dest, d, source, s, states[0]),
        forall|j: int| 0 <= j < ops.len() ==> tends(dest, d, source, s, #[trigger] ops[j]),
        patch_steps(states, ops, source),
        0 <= m <= ops.len(),
    ensures
        tended(dest, d, source, s, states[m]),
        forall|k: int|
            0 <= k < dest.children(d).len() && (exists|t: int|
                0 <= t < m && covers(d, source, s, #[trigger] ops[t], k)) ==> states[m].node(
                #[trigger] dest.children(d)[k],
            ).parent is None,
        (exists|t: int| 0 <= t < m && (#[trigger] ops[t]).dest() == d) ==> chain_ok(states[m], d),
        states[0].hash_ok(d) ==> states[m].hash_ok(d),
    decreases m,
{
    if m > 0 {
        lemma_tend_steps(dest, d, source, s, states, ops, m - 1);
        let before = states[m - 1];
        let after = states[m];
        let op = ops[m - 1];
        assert(op_applied(states[m - 1], states[m - 1 + 1], ops[m - 1], source));
        lemma_tend_step(dest, d, source, s, before, after, op);
        lemma_op_keeps_hashes(before, after, op, source);
        assert(dest.node_wf(d));
        assert forall|k: int|
            0 <= k < dest.children(d).len() && (exists|t: int|
                0 <= t < m && covers(d, source, s, #[trigger] ops[t], k)) implies after.node(
            #[trigger] dest.children(d)[k],
        ).parent is None by {
            let t = choose|t: int| 0 <= t < m && covers(d, source, s, #[trigger] ops[t], k);
            assert(dest.contains(dest.children(d)[k]));
            assert(before.contains(dest.children(d)[k]));
            if t == m - 1 {
            } else {
                assert(covers(d, source, s, ops[t], k));
                assert(before.node(dest.children(d)[k]).parent is None);
            }
        }
        if exists|t: int| 0 <= t < m && (#[trigger] ops[t]).dest() == d {
            if op.dest() == d {
            } else {
                let t = choose|t: int| 0 <= t < m && (#[trigger] ops[t]).dest() == d;
                assert(t < m - 1);
                assert(chain_ok(before, d));
                assert forall|y: NodeRef| #[trigger] after.contains(y) && after.is_above(y, d) implies after.hash_ok(
                    y,
                ) by {
                    before.lemma_above_pruned(after, y, d);
                    before.lemma_above_slot(y, d);
                    assert(before.contains(y));
                }
            }
        }
    }
}

// When the children of `d` were tended to the end and none of the children
// that differed is in its place any more, `d` is mended.
proof fn lemma_tend_finish(dest: TreeView, d: NodeRef, source: TreeView, s: NodeRef, x: TreeView)
    requires
        dest.wf(),
        source.wf(),
        dest.contains(d),
        source.contains(s),
        source.hash_ok(s),
        dest.children(d).len() == source.children(s).len(),
        tended(dest, d, source, s, x),
        x.hash_ok(d),
        forall|k: int|
            0 <= k < dest.children(d).len() && dest.child_hashes(d)[k] != source.child_hashes(s)[k]
                ==> x.node(#[trigger] dest.children(d)[k]).parent is None,
    ensures
        x.hash(d) == source.hash(s),
{
    let n = dest.children(d).len() as int;
    assert(x.node_wf(d));
    assert forall|k: int| 0 <= k < n implies x.child_hashes(d)[k] == source.child_hashes(s)[k] by {
        if dest.child_hashes(d)[k] != source.child_hashes(s)[k] {
            assert(x.node(dest.children(d)[k]).parent is None);
            assert(x.node(x.children(d)[k]).parent == Some(d));
        }
    }
    assert(x.child_hashes(d) =~= source.child_hashes(s));
}

// The operation changes a node of the subtree below `x`, or, where the
// two nodes are leaves, the parent of `x`.
spec fn dest_in_branch(dest: TreeView, x: NodeRef, source: TreeView, y: NodeRef, op: OpView) -> bool {
    is_below(dest, x, op.dest()) || (dest.is_leaf(x) && source.is_leaf(y) && dest.node(x).parent
        == Some(op.dest()))
}

// Every operation of the patch for two nodes changes a node of the subtree
// below the destination node, or, where the two nodes are leaves, its
// parent.
proof fn lemma_dests_pair(dest: TreeView, x: NodeRef, source: TreeView, y: NodeRef)
    requires
        dest.wf(),
        dest.contains(x),
    ensures
        forall|j: int|
            0 <= j < diff_of(dest, x, source, y).len() ==> dest_in_branch(
                dest,
                x,
                source,
                y,
                #[trigger] diff_of(dest, x, source, y)[j],
            ),
    decreases dest.nodes.len() - x.at(), 1int, 0int,
{
    let n = dest.children(x).len() as int;
    let ops = diff_of(dest, x, source, y);
    let now = pair_diff(dest, x, source, y);
    let later = if pairs_compared(dest, x, source, y) {
        diff_below(dest, x, source, y, n)
    } else {
        Seq::<OpView>::empty()
    };
    assert(ops == now + later);
    assert(dest.is_above(x, x));
    lemma_dests_below(dest, x, source, y, n);
    lemma_wraps_shape(dest, x, source, y, n);
    assert forall|j: int| 0 <= j < ops.len() implies dest_in_branch(
        dest,
        x,
        source,
        y,
        #[trigger] ops[j],
    ) by {
        if j >= now.len() {
            assert(ops[j] == later[j - now.len()]);
        } else {
            assert(ops[j] == now[j]);
            let head = data_diff(dest, x, source, y);
            if j < head.len() {
                assert(now[j] == head[j]);
            } else if dest.is_leaf(x) && source.is_leaf(y) {
                if dest.node(x).parent is Some && source.node(y).parent is Some {
                    let tail = children_diff(
                        dest,
                        dest.node(x).parent->0,
                        source,
                        source.node(y).parent->0,
                    );
                    assert(now[j] == tail[j - head.len()]);
                }
            } else if dest.is_leaf(x) {
                assert(now[j] == wrap_ops(x, source, y)[j - head.len()]);
            } else if source.is_leaf(y) {
                assert(now[j] == seq![OpView::RemoveChildren { dest: x }][j - head.len()]);
            } else if dest.child_hashes(x) == source.child_hashes(y) {
            } else if dest.children(x).len() == source.children(y).len() {
                assert(now[j] == wraps_diff(dest, x, source, y, n)[j - head.len()]);
            } else {
                assert(now[j] == children_diff(dest, x, source, y)[j - head.len()]);
            }
        }
    }
}

// Every operation of the patches for the pairs of children of two nodes
// changes a node of the subtree below the destination node.
proof fn lemma_dests_below(dest: TreeView, x: NodeRef, source: TreeView, y: NodeRef, k: int)
    requires
        dest.wf(),
        dest.contains(x),
        0 <= k <= dest.children(x).len(),
    ensures
        forall|j: int|
            0 <= j < diff_below(dest, x, source, y, k).len() ==> is_below(
                dest,
                x,
                (#[trigger] diff_below(dest, x, source, y, k)[j]).dest(),
            ),
    decreases dest.nodes.len() - x.at(), 0int, k,
{
    if k > 0 {
        let ops = diff_below(dest, x, source, y, k);
        let c = dest.children(x)[k - 1];
        let from = source.children(y)[k - 1];
        let first = if descends_at(dest, x, source, y, k - 1) {
            diff_of(dest, c, source, from)
        } else {
            Seq::<OpView>::empty()
        };
        let rest = diff_below(dest, x, source, y, k - 1);
        assert(ops == first + rest);
        assert(dest.node_wf(x));
        assert(dest.is_above(x, x));
        lemma_dests_below(dest, x, source, y, k - 1);
        if descends_at(dest, x, source, y, k - 1) {
            assert(dest.contains(c));
            lemma_dests_pair(dest, c, source, from);
            assert(dest.is_above(x, c));
        }
        assert forall|j: int| 0 <= j < ops.len() implies is_below(dest, x, (#[trigger] ops[j]).dest()) by {
            if j < first.len() {
                assert(ops[j] == first[j]);
                assert(dest_in_branch(dest, c, source, from, first[j]));
                if is_below(dest, c, first[j].dest()) {
                    dest.lemma_above_trans(x, c, first[j].dest());
                }
            } else {
                assert(ops[j] == rest[j - first.len()]);
            }
        }
    }
}

// What is reported for wrappings deals with the children of `d`, and sets
// them where there is a wrapping.
proof fn lemma_wraps_tend(dest: TreeView, d: NodeRef, source: TreeView, s: NodeRef, k: int)
    ensures
        forall|j: int|
            0 <= j < wraps_diff(dest, d, source, s, k).len() ==> tends(
                dest,
                d,
                source,
                s,
                #[trigger] wraps_diff(dest, d, source, s, k)[j],
            ),
        (exists|i: int| 0 <= i < k && differs_at(dest, d, source, s, i) && wraps_at(dest, d, source, s, i))
            ==> exists|t: int|
            0 <= t < wraps_diff(dest, d, source, s, k).len() && #[trigger] wraps_diff(
                dest,
                d,
                source,
                s,
                k,
            )[t] == (OpView::SetChildren { dest: d, nodes: source.children(s) }),
    decreases k,
{
    if k > 0 {
        lemma_wraps_tend(dest, d, source, s, k - 1);
        let ops = wraps_diff(dest, d, source, s, k);
        let front = wraps_diff(dest, d, source, s, k - 1);
        let two = wrap_ops(d, source, s);
        assert forall|j: int| 0 <= j < ops.len() implies tends(dest, d, source, s, #[trigger] ops[j]) by {
            if j < front.len() {
                assert(ops[j] == front[j]);
            } else {
                assert(ops[j] == two[j - front.len()]);
            }
        }
        if exists|i: int|
            0 <= i < k && differs_at(dest, d, source, s, i) && wraps_at(dest, d, source, s, i) {
            if differs_at(dest, d, source, s, k - 1) && wraps_at(dest, d, source, s, k - 1) {
                assert(ops[front.len() as int] == two[0]);
            } else {
                let i = choose|i: int|
                    0 <= i < k && differs_at(dest, d, source, s, i) && wraps_at(dest, d, source, s, i);
                assert(i < k - 1);
                let t = choose|t: int|
                    0 <= t < front.len() && #[trigger] front[t] == (OpView::SetChildren {
                        dest: d,
                        nodes: source.children(s),
                    });
                assert(ops[t] == front[t]);
            }
        }
    }
}

// A pair of leaves that differs and is no wrapping stands at `i`.
spec fn leaves_at(dest: TreeView, d: NodeRef, source: TreeView, s: NodeRef, i: int) -> bool {
    &&& differs_at(dest, d, source, s, i)
    &&& !wraps_at(dest, d, source, s, i)
    &&& dest.is_leaf(dest.children(d)[i])
    &&& source.is_leaf(source.children(s)[i])
}

// The patch for a pair of leaves that differs deals with the children of
// `d`, and replaces each child that differs.
proof fn lemma_leaves_tend(dest: TreeView, d: NodeRef, source: TreeView, s: NodeRef, i: int)
    requires
        dest.wf(),
        source.wf(),
        dest.contains(d),
        source.contains(s),
        pairs_compared(dest, d, source, s),
        0 <= i < dest.children(d).len(),
        leaves_at(dest, d, source, s, i),
        replaces_only(edit_script(dest.child_hashes(d), source.child_hashes(s))),
    ensures
        forall|j: int|
            0 <= j < diff_of(dest, dest.children(d)[i], source, source.children(s)[i]).len() ==> tends(
                dest,
                d,
                source,
                s,
                #[trigger] diff_of(dest, dest.children(d)[i], source, source.children(s)[i])[j],
            ),
        forall|q: int|
            0 <= q < dest.children(d).len() && dest.child_hashes(d)[q] != source.child_hashes(s)[q]
                ==> exists|t: int|
                0 <= t < diff_of(dest, dest.children(d)[i], source, source.children(s)[i]).len()
                    && replaces_at(
                    d,
                    source,
                    s,
                    #[trigger] diff_of(dest, dest.children(d)[i], source, source.children(s)[i])[t],
                    q,
                ),
{
    let c = dest.children(d)[i];
    let from = source.children(s)[i];
    let ops = diff_of(dest, c, source, from);
    let h0 = dest.child_hashes(d);
    let hs = source.child_hashes(s);
    let script = edit_script(h0, hs);
    let head = data_diff(dest, c, source, from);
    let tail = children_diff(dest, d, source, s);
    assert(dest.node_wf(d));
    assert(source.node_wf(s));
    assert(dest.node(c).parent == Some(d));
    assert(source.node(from).parent == Some(s));
    assert(h0[i] == dest.hash(c));
    assert(hs[i] == source.hash(from));
    assert(ops =~= head + tail);
    dest.lemma_children_bounded(d);
    lemma_script_replaces(h0, hs);
    assert(dest.contains(c));
    assert(dest.is_above(c, c));
    assert forall|j: int| 0 <= j < ops.len() implies tends(dest, d, source, s, #[trigger] ops[j]) by {
        if j >= head.len() {
            let e = script[j - head.len()];
            assert(ops[j] == tail[j - head.len()]);
            assert(tail[j - head.len()] == edit_op(d, source.children(s), e));
            assert(replaces_in_place(h0, hs, e));
            let at = e->Replace_dest_index;
            assert(replaces_at(d, source, s, ops[j], at as int));
            assert(tends_at(dest, d, source, s, ops[j], at as int));
        } else {
            assert(ops[j] == head[j]);
            assert(is_below(dest, dest.children(d)[i], ops[j].dest()));
            assert(tends_at(dest, d, source, s, ops[j], i));
        }
    }
    assert forall|q: int| 0 <= q < dest.children(d).len() && h0[q] != hs[q] implies exists|t: int|
        0 <= t < ops.len() && replaces_at(d, source, s, #[trigger] ops[t], q) by {
        let t = choose|t: int| 0 <= t < script.len() && (#[trigger] script[t]).dest() == q;
        let e = script[t];
        assert(replaces_in_place(h0, hs, e));
        assert(ops[head.len() + t] == tail[t]);
        assert(tail[t] == edit_op(d, source.children(s), e));
        assert(replaces_at(d, source, s, ops[head.len() + t], q));
    }
}

// The patches for the pairs of children that are compared on their own deal
// with the children of `d`; where one of them is a pair of leaves, they
// replace each child that differs.
proof fn lemma_below_tend(dest: TreeView, d: NodeRef, source: TreeView, s: NodeRef, k: int)
    requires
        dest.wf(),
        source.wf(),
        dest.contains(d),
        source.contains(s),
        pairs_compared(dest, d, source, s),
        (exists|i: int| 0 <= i < dest.children(d).len() && leaves_at(dest, d, source, s, i))
            ==> replaces_only(edit_script(dest.child_hashes(d), source.child_hashes(s))),
        0 <= k <= dest.children(d).len(),
    ensures
        forall|j: int|
            0 <= j < diff_below(dest, d, source, s, k).len() ==> tends(
                dest,
                d,
                source,
                s,
                #[trigger] diff_below(dest, d, source, s, k)[j],
            ),
        (exists|i: int| 0 <= i < k && leaves_at(dest, d, source, s, i)) ==> forall|q: int|
            0 <= q < dest.children(d).len() && dest.child_hashes(d)[q] != source.child_hashes(s)[q]
                ==> exists|t: int|
                0 <= t < diff_below(dest, d, source, s, k).len() && replaces_at(
                    d,
                    source,
                    s,
                    #[trigger] diff_below(dest, d, source, s, k)[t],
                    q,
                ),
    decreases k,
{
    if k > 0 {
        let n = dest.children(d).len() as int;
        let i = k - 1;
        let ops = diff_below(dest, d, source, s, k);
        let c = dest.children(d)[i];
        let from = source.children(s)[i];
        let first = if descends_at(dest, d, source, s, i) {
            diff_of(dest, c, source, from)
        } else {
            Seq::<OpView>::empty()
        };
        let rest = diff_below(dest, d, source, s, i);
        assert(ops == first + rest);
        assert(dest.node_wf(d));
        lemma_below_tend(dest, d, source, s, i);
        if descends_at(dest, d, source, s, i) {
            assert(dest.contains(c));
            assert(dest.child_hashes(d)[i] != source.child_hashes(s)[i]);
            if leaves_at(dest, d, source, s, i) {
                lemma_leaves_tend(dest, d, source, s, i);
            } else {
                lemma_dests_pair(dest, c, source, from);
                let sub = diff_of(dest, c, source, from);
                assert(first == sub);
                assert forall|j: int| 0 <= j < first.len() implies tends(
                    dest,
                    d,
                    source,
                    s,
                    #[trigger] first[j],
                ) by {
                    assert(dest_in_branch(dest, c, source, from, sub[j]));
                    assert(is_below(dest, dest.children(d)[i], first[j].dest()));
                    assert(tends_at(dest, d, source, s, first[j], i));
                }
            }
        }
        assert forall|j: int| 0 <= j < ops.len() implies tends(dest, d, source, s, #[trigger] ops[j]) by {
            if j < first.len() {
                assert(ops[j] == first[j]);
            } else {
                assert(ops[j] == rest[j - first.len()]);
            }
        }
        if exists|e: int| 0 <= e < k && leaves_at(dest, d, source, s, e) {
            assert forall|q: int|
                0 <= q < n && dest.child_hashes(d)[q] != source.child_hashes(s)[q] implies exists|
                t: int,
            | 0 <= t < ops.len() && replaces_at(d, source, s, #[trigger] ops[t], q) by {
                if leaves_at(dest, d, source, s, i) {
                    let t = choose|t: int|
                        0 <= t < first.len() && replaces_at(d, source, s, #[trigger] first[t], q);
                    assert(ops[t] == first[t]);
                    assert(replaces_at(d, source, s, ops[t], q));
                } else {
                    let e = choose|e: int| 0 <= e < k && leaves_at(dest, d, source, s, e);
                    assert(e < i);
                    let t = choose|t: int|
                        0 <= t < rest.len() && replaces_at(d, source, s, #[trigger] rest[t], q);
                    assert(ops[first.len() + t] == rest[t]);
                    assert(replaces_at(d, source, s, ops[first.len() + t], q));
                }
            }
        }
    }
}

// When the pairs of children are dealt with, the tree is tended, and `d`
// caches the subtree hash that its data and children give.
proof fn lemma_mixed_start(dest: TreeView, d: NodeRef, source: TreeView, s: NodeRef, states: Seq<TreeView>)
    requires
        dest.wf(),
        source.wf(),
        dest.contains(d),
        source.contains(s),
        dest.hash_ok(d),
        pairs_compared(dest, d, source, s),
        patch_steps(states, diff_of(dest, d, source, s), source),
        within(dest, d, states[0]),
        agrees(dest, d, states[0]),
    ensures
        diff_of(dest, d, source, s) == data_diff(dest, d, source, s) + (wraps_diff(
            dest,
            d,
            source,
            s,
            dest.children(d).len() as int,
        ) + diff_below(dest, d, source, s, dest.children(d).len() as int)),
        patch_steps(
            states.skip(data_diff(dest, d, source, s).len() as int),
            wraps_diff(dest, d, source, s, dest.children(d).len() as int) + diff_below(
                dest,
                d,
                source,
                s,
                dest.children(d).len() as int,
            ),
            source,
        ),
        tended(dest, d, source, s, states.skip(data_diff(dest, d, source, s).len() as int)[0]),
        states.skip(data_diff(dest, d, source, s).len() as int)[0].hash_ok(d),
{
    let n = dest.children(d).len() as int;
    let ops = diff_of(dest, d, source, s);
    let head = data_diff(dest, d, source, s);
    let rest = wraps_diff(dest, d, source, s, n) + diff_below(dest, d, source, s, n);
    assert(ops =~= head + rest);
    lemma_steps_from(states, ops, source, head.len() as int);
    let later = states.skip(head.len() as int);
    assert(ops.skip(head.len() as int) =~= rest);
    assert(dest.node_wf(d));
    assert(dest.is_above(d, d));
    let x0 = states[0];
    lemma_agrees_at(dest, d, x0);
    assert(x0.node_wf(d));
    assert forall|k: int| 0 <= k < n implies within(dest, #[trigger] dest.children(d)[k], x0) by {
        let c = dest.children(d)[k];
        assert(dest.contains(c));
        assert(dest.is_above(d, c));
        assert forall|y: NodeRef| is_below(dest, c, y) implies #[trigger] x0.node(y) == dest.node(
            y,
        ) by {
            dest.lemma_above_trans(d, c, y);
        }
        lemma_agrees_child(dest, d, c, x0);
    }
    assert(attended(dest, d, source, s, x0));
    assert(x0.hash_ok(d));
    if head.len() > 0 {
        let replace = OpView::ReplaceNode { dest: d, source: s };
        assert(ops[0] == replace);
        assert(op_applied(states[0], states[0int + 1], ops[0], source));
        lemma_tend_replace_node(dest, d, source, s, x0, states[1]);
        lemma_op_on_dest(x0, states[1], replace, source);
        assert(later[0] == states[1]);
    } else {
        assert(later[0] == x0);
    }
}

// Every operation behind the replacement of the data deals with the
// children of `d`, and each child that differs is left without a parent by
// one of them.
proof fn lemma_mixed_shape(dest: TreeView, d: NodeRef, source: TreeView, s: NodeRef)
    requires
        dest.wf(),
        source.wf(),
        dest.contains(d),
        source.contains(s),
        mixed(dest, d, source, s),
    ensures
        forall|j: int|
            0 <= j < (wraps_diff(dest, d, source, s, dest.children(d).len() as int) + diff_below(
                dest,
                d,
                source,
                s,
                dest.children(d).len() as int,
            )).len() ==> tends(
                dest,
                d,
                source,
                s,
                #[trigger] (wraps_diff(dest, d, source, s, dest.children(d).len() as int)
                    + diff_below(dest, d, source, s, dest.children(d).len() as int))[j],
            ),
        forall|q: int|
            0 <= q < dest.children(d).len() && dest.child_hashes(d)[q] != source.child_hashes(s)[q]
                ==> exists|t: int|
                0 <= t < (wraps_diff(dest, d, source, s, dest.children(d).len() as int) + diff_below(
                    dest,
                    d,
                    source,
                    s,
                    dest.children(d).len() as int,
                )).len() && covers(
                    d,
                    source,
                    s,
                    #[trigger] (wraps_diff(dest, d, source, s, dest.children(d).len() as int)
                        + diff_below(dest, d, source, s, dest.children(d).len() as int))[t],
                    q,
                ),
{
    let n = dest.children(d).len() as int;
    let h0 = dest.child_hashes(d);
    let hs = source.child_hashes(s);
    let wraps = wraps_diff(dest, d, source, s, n);
    let below = diff_below(dest, d, source, s, n);
    let rest = wraps + below;
    lemma_wraps_tend(dest, d, source, s, n);
    assert((exists|i: int| 0 <= i < n && leaves_at(dest, d, source, s, i)) ==> replaces_only(
        edit_script(h0, hs),
    )) by {
        if exists|i: int| 0 <= i < n && leaves_at(dest, d, source, s, i) {
            let i = choose|i: int| 0 <= i < n && leaves_at(dest, d, source, s, i);
            assert(differs_at(dest, d, source, s, i));
        }
    }
    lemma_below_tend(dest, d, source, s, n);
    assert forall|j: int| 0 <= j < rest.len() implies tends(dest, d, source, s, #[trigger] rest[j]) by {
        if j < wraps.len() {
            assert(rest[j] == wraps[j]);
        } else {
            assert(rest[j] == below[j - wraps.len()]);
        }
    }
    let k = choose|k: int|
        0 <= k < n && #[trigger] differs_at(dest, d, source, s, k) && (wraps_at(dest, d, source, s, k)
            || (dest.is_leaf(dest.children(d)[k]) && source.is_leaf(source.children(s)[k])));
    assert forall|q: int| 0 <= q < n && h0[q] != hs[q] implies exists|t: int|
        0 <= t < rest.len() && covers(d, source, s, #[trigger] rest[t], q) by {
        if wraps_at(dest, d, source, s, k) {
            let t = choose|t: int|
                0 <= t < wraps.len() && #[trigger] wraps[t] == (OpView::SetChildren {
                    dest: d,
                    nodes: source.children(s),
                });
            assert(rest[t] == wraps[t]);
            assert(covers(d, source, s, rest[t], q));
        } else {
            assert(leaves_at(dest, d, source, s, k));
            let t = choose|t: int|
                0 <= t < below.len() && replaces_at(d, source, s, #[trigger] below[t], q);
            assert(rest[wraps.len() + t] == below[t]);
            assert(covers(d, source, s, rest[wraps.len() + t], q));
        }
    }
}

// The patch for two nodes among whose differing children is a wrapping or a
// pair of leaves, applied to a tree that has the subtree below the
// destination node as `dest` has it.
proof fn lemma_mixed_core(dest: TreeView, d: NodeRef, source: TreeView, s: NodeRef, states: Seq<TreeView>)
    requires
        dest.wf(),
        source.wf(),
        dest.contains(d),
        source.contains(s),
        dest.hash_ok(d),
        source.hash_ok(s),
        mixed(dest, d, source, s),
        patch_steps(states, diff_of(dest, d, source, s), source),
        within(dest, d, states[0]),
        agrees(dest, d, states[0]),
    ensures
        states.last().contains(d),
        states.last().hash(d) == source.hash(s),
        dests_below(dest, d, diff_of(dest, d, source, s)),
        chain_ok(states.last(), d),
{
    let n = dest.children(d).len() as int;
    let h0 = dest.child_hashes(d);
    let hs = source.child_hashes(s);
    let ops = diff_of(dest, d, source, s);
    let head = data_diff(dest, d, source, s);
    let rest = wraps_diff(dest, d, source, s, n) + diff_below(dest, d, source, s, n);
    let later = states.skip(head.len() as int);
    lemma_mixed_start(dest, d, source, s, states);
    lemma_mixed_shape(dest, d, source, s);
    assert(later.last() == states.last());
    dest.lemma_children_bounded(d);
    lemma_tend_steps(dest, d, source, s, later, rest, rest.len() as int);
    let k = choose|k: int|
        0 <= k < n && #[trigger] differs_at(dest, d, source, s, k) && (wraps_at(dest, d, source, s, k)
            || (dest.is_leaf(dest.children(d)[k]) && source.is_leaf(source.children(s)[k])));
    assert(dest.node_wf(d));
    assert(h0[k] != hs[k]);
    let t0 = choose|t: int| 0 <= t < rest.len() && covers(d, source, s, #[trigger] rest[t], k);
    assert(rest[t0].dest() == d);
    lemma_tend_finish(dest, d, source, s, later.last());
    lemma_mixed_dests(dest, d, source, s);
}

// Every operation of such a patch changes a node below `d`.
proof fn lemma_mixed_dests(dest: TreeView, d: NodeRef, source: TreeView, s: NodeRef)
    requires
        dest.wf(),
        source.wf(),
        dest.contains(d),
        source.contains(s),
        mixed(dest, d, source, s),
    ensures
        dests_below(dest, d, diff_of(dest, d, source, s)),
{
    let n = dest.children(d).len() as int;
    let h0 = dest.child_hashes(d);
    let hs = source.child_hashes(s);
    let ops = diff_of(dest, d, source, s);
    let head = data_diff(dest, d, source, s);
    let rest = wraps_diff(dest, d, source, s, n) + diff_below(dest, d, source, s, n);
    assert(ops =~= head + rest);
    lemma_mixed_shape(dest, d, source, s);
    assert(dest.node_wf(d));
    assert(dest.is_above(d, d));
    assert forall|j: int| 0 <= j < ops.len() implies is_below(dest, d, (#[trigger] ops[j]).dest()) by {
        if j >= head.len() {
            let op = rest[j - head.len()];
            assert(ops[j] == op);
            assert(tends(dest, d, source, s, op));
            if op != (OpView::ReplaceNode { dest: d, source: s }) && op != (OpView::SetChildren {
                dest: d,
                nodes: source.children(s),
            }) {
                let q = choose|q: int| #[trigger] tends_at(dest, d, source, s, op, q);
                if !replaces_at(d, source, s, op, q) {
                    assert(dest.contains(dest.children(d)[q]));
                    assert(dest.is_above(d, dest.children(d)[q]));
                    dest.lemma_above_trans(d, dest.children(d)[q], op.dest());
                }
            }
        } else {
            assert(ops[j] == head[j]);
        }
    }
}

// The patch for two nodes mends the destination node, in a tree that has
// the subtree below the destination node as `dest` has it.
proof fn lemma_mends_core(dest: TreeView, d: NodeRef, source: TreeView, s: NodeRef, states: Seq<TreeView>)
    requires
        dest.wf(),
        source.wf(),
        dest.contains(d),
        source.contains(s),
        dest.hashed(),
        source.hashed(),
        mends(dest, d, source, s),
        patch_steps(states, diff_of(dest, d, source, s), source),
        within(dest, d, states[0]),
        agrees(dest, d, states[0]),
    ensures
        states.last().contains(d),
        states.last().hash(d) == source.hash(s),
        dests_below(dest, d, diff_of(dest, d, source, s)),
        dest.hash(d) != source.hash(s) ==> chain_ok(states.last(), d),
    decreases dest.nodes.len() - d.at(), 1int, 0int,
{
    let ops = diff_of(dest, d, source, s);
    assert(dest.is_above(d, d));
    lemma_agrees_at(dest, d, states[0]);
    assert(dest.hash_ok(d));
    assert(source.hash_ok(s));
    if dest.hash(d) == source.hash(s) {
        assert(ops =~= Seq::<OpView>::empty());
        assert(states.last() == states[0]);
    } else if compared_at_once(dest, d, source, s) && (lists_edited(dest, d, source, s)
        ==> inserts_above_deletes(edit_script(dest.child_hashes(d), source.child_hashes(s)))) {
        lemma_at_once_core(dest, d, source, s, states);
        assert(ops.last().dest() == d);
        lemma_chain_ok_last(dest, d, states, ops, source);
    } else if mixed(dest, d, source, s) {
        lemma_mixed_core(dest, d, source, s, states);
    } else {
        let n = dest.children(d).len() as int;
        let head = data_diff(dest, d, source, s);
        let below = diff_below(dest, d, source, s, n);
        let later = states.skip(head.len() as int);
        lemma_lift_start(dest, d, source, s, states);
        assert(later.last() == states.last());
        lemma_descend(dest, d, source, s, n, later);
        assert(exists|j: int| 0 <= j < n && differs_at(dest, d, source, s, j)) by {
            let h0 = dest.child_hashes(d);
            let hs = source.child_hashes(s);
            if forall|j: int| 0 <= j < n ==> h0[j] == hs[j] {
                assert(h0 =~= hs);
            }
            let j = choose|j: int| 0 <= j < n && h0[j] != hs[j];
            assert(differs_at(dest, d, source, s, j));
        }
        lemma_lift_finish(dest, d, source, s, states.last());
        assert forall|j: int| 0 <= j < ops.len() implies is_below(dest, d, (#[trigger] ops[j]).dest()) by {
            if j >= head.len() {
                assert(ops[j] == below[j - head.len()]);
            } else {
                assert(ops[j] == head[j]);
            }
        }
    }
}

/// Round trip of diff and patch: applied to the destination tree, the patch
/// for two nodes leaves the destination node with the subtree hash that the
/// source node caches, wherever the patch mends the node (see [`mends`]).
/// Both trees cache the subtree hashes that their data and children give.
pub proof fn lemma_patch_mends(
    dest: TreeView,
    after: TreeView,
    d: NodeRef,
    source: TreeView,
    s: NodeRef,
)
    requires
        dest.wf(),
        source.wf(),
        dest.contains(d),
        source.contains(s),
        dest.hashed(),
        source.hashed(),
        mends(dest, d, source, s),
        patch_applied(dest, after, diff_of(dest, d, source, s), source),
    ensures
        after.contains(d),
        after.hash(d) == source.hash(s),
{
    let ops = diff_of(dest, d, source, s);
    let states = choose|states: Seq<TreeView>|
        #[trigger] patch_steps(states, ops, source) && states[0] == dest && states.last() == after;
    assert forall|y: NodeRef, k: int|
        is_below(dest, d, y) && 0 <= k < dest.children(y).len() implies is_below(
        dest,
        d,
        #[trigger] dest.children(y)[k],
    ) || dest.children(y)[k].at() >= dest.nodes.len() by {
        assert(dest.node_wf(y));
        let child = dest.children(y)[k];
        assert(dest.contains(child));
        assert(dest.is_above(d, child));
    }
    lemma_mends_core(dest, d, source, s, states);
}

/// An operation leaves the root of the tree where it is.
pub proof fn lemma_op_keeps_root(before: TreeView, after: TreeView, op: OpView, source: TreeView)
    requires
        op_applied(before, after, op, source),
    ensures
        after.root == before.root,
{
    let mid = choose|mid: TreeView|
        {
            &&& #[trigger] op_changes(before, mid, op, source)
            &&& mid.wf()
            &&& after.wf()
            &&& if mid.contains(op.dest()) {
                mid.rehashed_from(after, op.dest())
            } else {
                after == mid
            }
        };
    if op is RemoveChildren && before.contains(op.dest()) {
        let bare = before.with_node(op.dest(), NodeView { children: None, ..before.node(op.dest()) });
        lemma_orphans_keep_root(bare, before.children(op.dest()));
    }
    assert(mid.root == before.root);
}

// Nodes that lose their parents leave the root where it is.
proof fn lemma_orphans_keep_root(tree: TreeView, refs: Seq<NodeRef>)
    ensures
        tree.orphan_all(refs).root == tree.root,
    decreases refs.len(),
{
    if refs.len() > 0 {
        lemma_orphans_keep_root(tree, refs.drop_last());
    }
}

/// A patch leaves the root of the tree where it is.
pub proof fn lemma_patch_keeps_root(states: Seq<TreeView>, ops: Seq<OpView>, source: TreeView, upto: int)
    requires
        patch_steps(states, ops, source),
        0 <= upto <= ops.len(),
    ensures
        states[upto].root == states[0].root,
    decreases upto,
{
    if upto > 0 {
        lemma_patch_keeps_root(states, ops, source, upto - 1);
        assert(op_applied(states[upto - 1], states[upto - 1 + 1], ops[upto - 1], source));
        lemma_op_keeps_root(states[upto - 1], states[upto], ops[upto - 1], source);
    }
}

/// Round trip of diff and patch at the roots: applied to the destination
/// tree, the patch for the roots of two trees leaves a tree whose root caches
/// the subtree hash that the root of the source caches, wherever the patch
/// mends the root (see [`mends`]). Both trees cache the subtree hashes that
/// their data and children give.
pub proof fn lemma_patch_round_trip(dest: TreeView, after: TreeView, source: TreeView)
    requires
        dest.wf(),
        source.wf(),
        dest.root is Some,
        source.root is Some,
        dest.hashed(),
        source.hashed(),
        mends(dest, dest.root->0, source, source.root->0),
        patch_applied(dest, after, diff_of(dest, dest.root->0, source, source.root->0), source),
    ensures
        after.root_hash() == source.root_hash(),
{
    let d = dest.root->0;
    let s = source.root->0;
    let ops = diff_of(dest, d, source, s);
    let states = choose|states: Seq<TreeView>|
        #[trigger] patch_steps(states, ops, source) && states[0] == dest && states.last() == after;
    lemma_patch_keeps_root(states, ops, source, ops.len() as int);
    lemma_patch_mends(dest, after, d, source, s);
}

} // verus!
