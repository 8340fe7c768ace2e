//! What holds of edit scripts: facts about the application order, about the
//! scripts that [`vec_edits`](super::vec_edits) finds, and about applying them.

use super::{
    apply_edits, backtrack, edit_distance, edit_script, edits_fit, edits_ordered, insert_ordered,
    min3, sorted_edits, Edit,
};
use vstd::prelude::*;

verus! {

/// A script that fits also fits when cut short.
pub proof fn lemma_fit_prefix<T>(dest: Seq<T>, source: Seq<T>, edits: Seq<Edit>, n: int)
    requires
        edits_fit(dest, source, edits),
        0 <= n <= edits.len(),
    ensures
        edits_fit(dest, source, edits.take(n)),
    decreases edits.len(),
{
    if n == edits.len() {
        assert(edits.take(n) == edits);
    } else {
        lemma_fit_prefix(dest, source, edits.drop_last(), n);
        assert(edits.drop_last().take(n) == edits.take(n));
    }
}

/// Putting an edit into a script in order is an insertion at the position
/// behind which every edit is strictly later than it, and in front of which
/// the next edit is not.
pub proof fn lemma_insert_ordered_at(script: Seq<Edit>, edit: Edit, p: int)
    requires
        0 <= p <= script.len(),
        forall|i: int| p <= i < script.len() ==> edit.before(#[trigger] script[i]),
        p > 0 ==> !edit.before(script[p - 1]),
    ensures
        insert_ordered(script, edit) == script.insert(p, edit),
    decreases script.len(),
{
    if p == script.len() {
        assert(script.insert(p, edit) == script.push(edit));
    } else {
        lemma_insert_ordered_at(script.drop_last(), edit, p);
        assert(script.drop_last().insert(p, edit).push(script.last()) == script.insert(p, edit));
    }
}

/// Every edit of `insert_ordered(script, edit)` is `edit` or an edit of
/// `script`, and the result is ordered where `script` was.
pub proof fn lemma_insert_ordered_keeps_order(script: Seq<Edit>, edit: Edit)
    requires
        edits_ordered(script),
    ensures
        edits_ordered(insert_ordered(script, edit)),
        insert_ordered(script, edit).len() == script.len() + 1,
        insert_ordered(script, edit).to_multiset() == script.to_multiset().insert(edit),
    decreases script.len(),
{
    broadcast use vstd::seq_lib::to_multiset_build;

    if script.len() > 0 && edit.before(script.last()) {
        let front = script.drop_last();
        lemma_insert_ordered_keeps_order(front, edit);
        let placed = insert_ordered(front, edit);
        let result = placed.push(script.last());
        assert(script == front.push(script.last()));
        assert forall|i: int, j: int| 0 <= i < j < result.len() implies !(#[trigger] result[j]).before(
            #[trigger] result[i],
        ) by {
            if j == result.len() - 1 {
                // result[i] is `edit` or an edit of `front`
                assert(placed.to_multiset().count(placed[i]) > 0) by {
                    vstd::seq_lib::to_multiset_contains(placed, placed[i]);
                    assert(placed.contains(placed[i]));
                }
                if placed[i] != edit {
                    assert(front.to_multiset().count(placed[i]) > 0);
                    vstd::seq_lib::to_multiset_contains(front, placed[i]);
                    let w = choose|w: int| 0 <= w < front.len() && front[w] == placed[i];
                    assert(script[w] == placed[i]);
                    assert(!script[script.len() - 1].before(script[w]));
                }
            } else {
                assert(result[j] == placed[j]);
                assert(result[i] == placed[i]);
            }
        }
        assert(front.to_multiset().insert(script.last()).insert(edit) =~= front.to_multiset().insert(
            edit,
        ).insert(script.last()));
    } else {
        let result = script.push(edit);
        assert forall|i: int, j: int| 0 <= i < j < result.len() implies !(#[trigger] result[j]).before(
            #[trigger] result[i],
        ) by {
            if j == result.len() - 1 {
                if script.len() > 0 {
                    assert(!edit.before(script[script.len() - 1]));
                    if i < script.len() - 1 {
                        assert(!script[script.len() - 1].before(script[i]));
                    }
                }
            }
        }
    }
}

/// Sorted edits are in application order.
pub proof fn lemma_sorted_edits_ordered(edits: Seq<Edit>)
    ensures
        edits_ordered(sorted_edits(edits)),
        sorted_edits(edits).len() == edits.len(),
    decreases edits.len(),
{
    if edits.len() > 0 {
        lemma_sorted_edits_ordered(edits.drop_last());
        lemma_insert_ordered_keeps_order(sorted_edits(edits.drop_last()), edits.last());
    }
}

/// Sorting neither adds nor drops an edit.
pub proof fn lemma_sorted_edits_permutes(edits: Seq<Edit>)
    ensures
        sorted_edits(edits).to_multiset() == edits.to_multiset(),
    decreases edits.len(),
{
    broadcast use vstd::seq_lib::to_multiset_build;

    if edits.len() > 0 {
        lemma_sorted_edits_permutes(edits.drop_last());
        lemma_sorted_edits_ordered(edits.drop_last());
        lemma_insert_ordered_keeps_order(sorted_edits(edits.drop_last()), edits.last());
        assert(edits == edits.drop_last().push(edits.last()));
    } else {
        assert(sorted_edits(edits) == edits);
    }
}

/// The edit distance between two prefixes is at most the length of the longer.
pub proof fn lemma_distance_bound<T>(dest: Seq<T>, source: Seq<T>, i: nat, j: nat)
    ensures
        edit_distance(dest, source, i, j) <= if i <= j { j } else { i },
    decreases i + j,
{
    if i > 0 && j > 0 {
        lemma_distance_bound(dest, source, (i - 1) as nat, (j - 1) as nat);
    }
}

/// The edit distance between two prefixes is at least the difference of
/// their lengths.
pub proof fn lemma_distance_at_least<T>(dest: Seq<T>, source: Seq<T>, i: nat, j: nat)
    ensures
        edit_distance(dest, source, i, j) >= i - j,
        edit_distance(dest, source, i, j) >= j - i,
    decreases i + j,
{
    if i > 0 && j > 0 {
        lemma_distance_at_least(dest, source, (i - 1) as nat, (j - 1) as nat);
        lemma_distance_at_least(dest, source, i, (j - 1) as nat);
        lemma_distance_at_least(dest, source, (i - 1) as nat, j);
    }
}

/// The script found on the way back from cell `(i, j)` has as many edits as
/// the edit distance of that cell: no shorter script exists.
pub proof fn lemma_backtrack_len<T>(dest: Seq<T>, source: Seq<T>, i: nat, j: nat)
    ensures
        backtrack(dest, source, i, j).len() == edit_distance(dest, source, i, j),
    decreases i + j,
{
    if i == 0 && j == 0 {
    } else if i > 0 && j > 0 && dest[i - 1] == source[j - 1] {
        lemma_backtrack_len(dest, source, (i - 1) as nat, (j - 1) as nat);
    } else if i > 0 && (j == 0 || edit_distance(dest, source, i, j) == edit_distance(
        dest,
        source,
        (i - 1) as nat,
        j,
    ) + 1) {
        lemma_backtrack_len(dest, source, (i - 1) as nat, j);
    } else if j > 0 && (i == 0 || edit_distance(dest, source, i, j) == edit_distance(
        dest,
        source,
        i,
        (j - 1) as nat,
    ) + 1) {
        lemma_backtrack_len(dest, source, i, (j - 1) as nat);
    } else {
        lemma_backtrack_len(dest, source, (i - 1) as nat, (j - 1) as nat);
    }
}

/// The script of [`vec_edits`](super::vec_edits) is a shortest one: it has as
/// many edits as the edit distance between the two sequences.
pub proof fn lemma_edit_script_is_shortest<T>(dest: Seq<T>, source: Seq<T>)
    ensures
        edit_script(dest, source).len() == edit_distance(dest, source, dest.len(), source.len()),
{
    lemma_backtrack_len(dest, source, dest.len(), source.len());
    lemma_sorted_edits_ordered(backtrack(dest, source, dest.len(), source.len()));
}

/// In a sorted script every replacement stands before every insertion, and
/// every insertion before every deletion.
pub proof fn lemma_sorted_edits_by_class(edits: Seq<Edit>)
    ensures
        forall|i: int, j: int|
            0 <= i < j < edits.len() ==> (#[trigger] sorted_edits(edits)[i]).rank() <= (
            #[trigger] sorted_edits(edits)[j]).rank(),
{
    lemma_sorted_edits_ordered(edits);
    let sorted = sorted_edits(edits);
    assert forall|i: int, j: int| 0 <= i < j < edits.len() implies (#[trigger] sorted[i]).rank() <= (
    #[trigger] sorted[j]).rank() by {
        assert(!sorted[j].before(sorted[i]));
    }
}

/// Sorting keeps the edits: each edit of the sorted script is one of the
/// script, and each edit of the script is one of the sorted script.
pub proof fn lemma_sorted_edits_same_members(edits: Seq<Edit>)
    ensures
        forall|i: int|
            0 <= i < edits.len() ==> edits.contains(#[trigger] sorted_edits(edits)[i]),
        forall|i: int|
            0 <= i < edits.len() ==> sorted_edits(edits).contains(#[trigger] edits[i]),
{
    lemma_sorted_edits_ordered(edits);
    lemma_sorted_edits_permutes(edits);
    let sorted = sorted_edits(edits);
    assert forall|i: int| 0 <= i < edits.len() implies edits.contains(#[trigger] sorted[i]) by {
        assert(sorted.contains(sorted[i]));
        vstd::seq_lib::to_multiset_contains(sorted, sorted[i]);
        vstd::seq_lib::to_multiset_contains(edits, sorted[i]);
    }
    assert forall|i: int| 0 <= i < edits.len() implies sorted.contains(#[trigger] edits[i]) by {
        assert(edits.contains(edits[i]));
        vstd::seq_lib::to_multiset_contains(sorted, edits[i]);
        vstd::seq_lib::to_multiset_contains(edits, edits[i]);
    }
}

/// Applying two scripts one after the other is applying them joined.
pub proof fn lemma_apply_joined<T>(dest: Seq<T>, source: Seq<T>, a: Seq<Edit>, b: Seq<Edit>)
    ensures
        apply_edits(dest, source, a + b) == apply_edits(apply_edits(dest, source, a), source, b),
        edits_fit(dest, source, a + b) == (edits_fit(dest, source, a) && edits_fit(
            apply_edits(dest, source, a),
            source,
            b,
        )),
    decreases b.len(),
{
    if b.len() == 0 {
        assert(a + b == a);
    } else {
        lemma_apply_joined(dest, source, a, b.drop_last());
        assert((a + b).drop_last() == a + b.drop_last());
        assert((a + b).last() == b.last());
    }
}

/// A script of one edit applies that edit.
pub proof fn lemma_apply_single<T>(dest: Seq<T>, source: Seq<T>, edit: Edit)
    ensures
        apply_edits(dest, source, seq![edit]) == edit.apply(dest, source),
        edits_fit(dest, source, seq![edit]) == edit.fits(dest.len() as int, source.len() as int),
{
    let one = seq![edit];
    assert(one.drop_last() == Seq::<Edit>::empty());
    assert(one.last() == edit);
    assert(apply_edits(dest, source, one.drop_last()) == dest);
    assert(edits_fit(dest, source, one.drop_last()));
}

/// The three ways in which one step back through the distance matrix changes
/// the sequence that is made of a destination prefix and a source tail.
proof fn lemma_step_shapes<T>(dest: Seq<T>, source: Seq<T>, i: int, j: int)
    requires
        0 <= i <= dest.len(),
        0 <= j <= source.len(),
    ensures
        i > 0 ==> (dest.take(i) + source.skip(j)).remove(i - 1) == dest.take(i - 1) + source.skip(j),
        j > 0 ==> (dest.take(i) + source.skip(j)).insert(i, source[j - 1]) == dest.take(i)
            + source.skip(j - 1),
        i > 0 && j > 0 ==> (dest.take(i) + source.skip(j)).update(i - 1, source[j - 1])
            == dest.take(i - 1) + source.skip(j - 1),
        i > 0 && j > 0 && dest[i - 1] == source[j - 1] ==> dest.take(i) + source.skip(j)
            == dest.take(i - 1) + source.skip(j - 1),
{
    let v = dest.take(i) + source.skip(j);
    if i > 0 {
        assert(v.remove(i - 1) =~= dest.take(i - 1) + source.skip(j));
    }
    if j > 0 {
        assert(v.insert(i, source[j - 1]) =~= dest.take(i) + source.skip(j - 1));
    }
    if i > 0 && j > 0 {
        assert(v.update(i - 1, source[j - 1]) =~= dest.take(i - 1) + source.skip(j - 1));
        if dest[i - 1] == source[j - 1] {
            assert(v =~= dest.take(i - 1) + source.skip(j - 1));
        }
    }
}

/// One edit in front of a script: the edit is applied, then the script.
proof fn lemma_apply_first<T>(dest: Seq<T>, source: Seq<T>, edit: Edit, rest: Seq<Edit>)
    ensures
        apply_edits(dest, source, seq![edit] + rest) == apply_edits(
            edit.apply(dest, source),
            source,
            rest,
        ),
        edits_fit(dest, source, seq![edit] + rest) == (edit.fits(
            dest.len() as int,
            source.len() as int,
        ) && edits_fit(edit.apply(dest, source), source, rest)),
{
    lemma_apply_single(dest, source, edit);
    lemma_apply_joined(dest, source, seq![edit], rest);
}

/// Applied in the order in which they are found, the edits found on the way
/// back from cell `(i, j)` turn the first `i` items of `dest`, followed by
/// what is behind the first `j` items of `source`, into `source`.
pub proof fn lemma_backtrack_applies<T>(dest: Seq<T>, source: Seq<T>, i: nat, j: nat)
    requires
        i <= dest.len() <= usize::MAX,
        j <= source.len() <= usize::MAX,
    ensures
        edits_fit(dest.take(i as int) + source.skip(j as int), source, backtrack(dest, source, i, j)),
        apply_edits(dest.take(i as int) + source.skip(j as int), source, backtrack(dest, source, i, j))
            == source,
    decreases i + j,
{
    let v = dest.take(i as int) + source.skip(j as int);
    lemma_step_shapes(dest, source, i as int, j as int);
    if i == 0 && j == 0 {
        assert(v =~= source);
    } else if i > 0 && j > 0 && dest[i - 1] == source[j - 1] {
        lemma_backtrack_applies(dest, source, (i - 1) as nat, (j - 1) as nat);
    } else if i > 0 && (j == 0 || edit_distance(dest, source, i, j) == edit_distance(
        dest,
        source,
        (i - 1) as nat,
        j,
    ) + 1) {
        let e = Edit::Delete { dest_index: (i - 1) as usize };
        lemma_backtrack_applies(dest, source, (i - 1) as nat, j);
        lemma_apply_first(v, source, e, backtrack(dest, source, (i - 1) as nat, j));
    } else if j > 0 && (i == 0 || edit_distance(dest, source, i, j) == edit_distance(
        dest,
        source,
        i,
        (j - 1) as nat,
    ) + 1) {
        let e = Edit::Insert { dest_index: i as usize, source_index: (j - 1) as usize };
        lemma_backtrack_applies(dest, source, i, (j - 1) as nat);
        lemma_apply_first(v, source, e, backtrack(dest, source, i, (j - 1) as nat));
    } else {
        let e = Edit::Replace { dest_index: (i - 1) as usize, source_index: (j - 1) as usize };
        lemma_backtrack_applies(dest, source, (i - 1) as nat, (j - 1) as nat);
        lemma_apply_first(v, source, e, backtrack(dest, source, (i - 1) as nat, (j - 1) as nat));
    }
}

/// How an edit relates to one that was found before it on the way back
/// through the distance matrix: it lies at a lower destination position, or,
/// if it is an insertion, at one that is not higher.
pub open spec fn found_after(earlier: Edit, later: Edit) -> bool {
    if later is Insert {
        later.dest() <= earlier.dest()
    } else {
        later.dest() < earlier.dest()
    }
}

/// The script is in an order in which the way back through a distance matrix
/// can find edits: destination positions never rise.
pub open spec fn found_in_order(edits: Seq<Edit>) -> bool {
    forall|a: int, b: int| 0 <= a < b < edits.len() ==> found_after(#[trigger] edits[a], #[trigger] edits[b])
}

/// No insertion of the script stands behind a deletion.
pub open spec fn no_insert_after_delete(edits: Seq<Edit>) -> bool {
    forall|a: int, b: int|
        0 <= a < b < edits.len() ==> !((#[trigger] edits[a]) is Delete && (#[trigger] edits[b]) is Insert)
}

/// Every insertion of the script lies at a higher destination position than
/// every deletion.
pub open spec fn inserts_above_deletes(edits: Seq<Edit>) -> bool {
    forall|a: int, b: int|
        0 <= a < edits.len() && 0 <= b < edits.len() && (#[trigger] edits[a]) is Insert && (
        #[trigger] edits[b]) is Delete ==> edits[a].dest() > edits[b].dest()
}

/// The edits found on the way back from cell `(i, j)` stay within the first
/// `i` destination positions and are found in descending position.
pub proof fn lemma_backtrack_order<T>(dest: Seq<T>, source: Seq<T>, i: nat, j: nat)
    requires
        i <= usize::MAX,
        j <= usize::MAX,
    ensures
        found_in_order(backtrack(dest, source, i, j)),
        forall|k: int|
            0 <= k < backtrack(dest, source, i, j).len() ==> {
                let e = #[trigger] backtrack(dest, source, i, j)[k];
                if e is Insert {
                    e.dest() <= i
                } else {
                    e.dest() < i
                }
            },
    decreases i + j,
{
    if i == 0 && j == 0 {
    } else if i > 0 && j > 0 && dest[i - 1] == source[j - 1] {
        lemma_backtrack_order(dest, source, (i - 1) as nat, (j - 1) as nat);
    } else if i > 0 && (j == 0 || edit_distance(dest, source, i, j) == edit_distance(
        dest,
        source,
        (i - 1) as nat,
        j,
    ) + 1) {
        lemma_backtrack_order(dest, source, (i - 1) as nat, j);
    } else if j > 0 && (i == 0 || edit_distance(dest, source, i, j) == edit_distance(
        dest,
        source,
        i,
        (j - 1) as nat,
    ) + 1) {
        lemma_backtrack_order(dest, source, i, (j - 1) as nat);
    } else {
        lemma_backtrack_order(dest, source, (i - 1) as nat, (j - 1) as nat);
    }
}

/// A replacement and an edit at a higher destination position can be applied
/// in either order.
pub proof fn lemma_replace_commutes<T>(dest: Seq<T>, source: Seq<T>, other: Edit, replace: Edit)
    requires
        replace is Replace,
        replace.dest() < other.dest(),
        other.fits(dest.len() as int, source.len() as int),
        replace.fits(other.apply(dest, source).len() as int, source.len() as int),
    ensures
        replace.fits(dest.len() as int, source.len() as int),
        other.fits(replace.apply(dest, source).len() as int, source.len() as int),
        other.apply(replace.apply(dest, source), source) == replace.apply(
            other.apply(dest, source),
            source,
        ),
{
    assert(other.apply(replace.apply(dest, source), source) =~= replace.apply(
        other.apply(dest, source),
        source,
    ));
}

/// Putting `edit` into `script` in order, where it passes only edits that it
/// commutes with, leaves the result of the application as if `edit` had been
/// applied last.
pub proof fn lemma_insert_ordered_applies<T>(
    dest: Seq<T>,
    source: Seq<T>,
    script: Seq<Edit>,
    edit: Edit,
)
    requires
        edits_fit(dest, source, script.push(edit)),
        forall|i: int|
            0 <= i < script.len() && edit.before(#[trigger] script[i]) ==> edit is Replace
                && edit.dest() < script[i].dest(),
    ensures
        edits_fit(dest, source, insert_ordered(script, edit)),
        apply_edits(dest, source, insert_ordered(script, edit)) == apply_edits(
            dest,
            source,
            script.push(edit),
        ),
    decreases script.len(),
{
    assert(script.push(edit).drop_last() == script);
    assert(script.push(edit).last() == edit);
    if script.len() > 0 && edit.before(script.last()) {
        let front = script.drop_last();
        let y = script.last();
        let w = apply_edits(dest, source, front);
        assert(script[script.len() - 1] == y);
        assert(edits_fit(dest, source, script));
        assert(edits_fit(dest, source, front) && y.fits(w.len() as int, source.len() as int));
        assert(apply_edits(dest, source, script) == y.apply(w, source));
        lemma_replace_commutes(w, source, y, edit);
        assert(front.push(edit).drop_last() == front);
        assert(front.push(edit).last() == edit);
        assert(edits_fit(dest, source, front.push(edit)));
        assert forall|i: int| 0 <= i < front.len() && edit.before(#[trigger] front[i]) implies edit is Replace
            && edit.dest() < front[i].dest() by {
            assert(front[i] == script[i]);
        }
        lemma_insert_ordered_applies(dest, source, front, edit);
        let placed = insert_ordered(front, edit);
        assert(placed.push(y).drop_last() == placed);
        assert(placed.push(y).last() == y);
    }
}

/// In-place application in sorted order gives what application in the order
/// of discovery gives, for a script whose positions never rise and in which no
/// insertion stands behind a deletion.
pub proof fn lemma_sorted_edits_apply<T>(dest: Seq<T>, source: Seq<T>, edits: Seq<Edit>)
    requires
        edits_fit(dest, source, edits),
        found_in_order(edits),
        no_insert_after_delete(edits),
    ensures
        edits_fit(dest, source, sorted_edits(edits)),
        apply_edits(dest, source, sorted_edits(edits)) == apply_edits(dest, source, edits),
    decreases edits.len(),
{
    if edits.len() > 0 {
        let front = edits.drop_last();
        let e = edits.last();
        let sorted = sorted_edits(front);
        assert forall|a: int, b: int| 0 <= a < b < front.len() implies found_after(
            #[trigger] front[a],
            #[trigger] front[b],
        ) by {
            assert(front[a] == edits[a] && front[b] == edits[b]);
        }
        assert forall|a: int, b: int| 0 <= a < b < front.len() implies !((#[trigger] front[a]) is Delete
            && (#[trigger] front[b]) is Insert) by {
            assert(front[a] == edits[a] && front[b] == edits[b]);
        }
        lemma_sorted_edits_apply(dest, source, front);
        lemma_sorted_edits_ordered(front);
        lemma_sorted_edits_same_members(front);
        assert(sorted.push(e).drop_last() == sorted);
        assert(sorted.push(e).last() == e);
        assert forall|i: int| 0 <= i < sorted.len() && e.before(#[trigger] sorted[i]) implies e is Replace
            && e.dest() < sorted[i].dest() by {
            assert(front.contains(sorted[i]));
            let w = choose|w: int| 0 <= w < front.len() && front[w] == sorted[i];
            assert(edits[w] == sorted[i]);
            assert(found_after(edits[w], edits[edits.len() - 1]));
            assert(!(edits[w] is Delete && edits[edits.len() - 1] is Insert));
        }
        lemma_insert_ordered_applies(dest, source, sorted, e);
    }
}

/// Round trip on sequences: applied in place to `dest`, the script of
/// [`vec_edits`](super::vec_edits) yields `source`, whenever every insertion
/// of the script lies above every deletion.
pub proof fn lemma_edit_script_round_trip<T>(dest: Seq<T>, source: Seq<T>)
    requires
        dest.len() <= usize::MAX,
        source.len() <= usize::MAX,
        inserts_above_deletes(edit_script(dest, source)),
    ensures
        edits_fit(dest, source, edit_script(dest, source)),
        apply_edits(dest, source, edit_script(dest, source)) == source,
{
    let found = backtrack(dest, source, dest.len(), source.len());
    lemma_backtrack_applies(dest, source, dest.len(), source.len());
    assert(dest.take(dest.len() as int) + source.skip(source.len() as int) == dest);
    lemma_backtrack_order(dest, source, dest.len(), source.len());
    lemma_sorted_edits_same_members(found);
    lemma_sorted_edits_ordered(found);
    let sorted = sorted_edits(found);
    assert forall|a: int, b: int| 0 <= a < b < found.len() implies !((#[trigger] found[a]) is Delete
        && (#[trigger] found[b]) is Insert) by {
        if found[a] is Delete && found[b] is Insert {
            assert(sorted.contains(found[a]));
            assert(sorted.contains(found[b]));
            let x = choose|x: int| 0 <= x < sorted.len() && sorted[x] == found[a];
            let y = choose|y: int| 0 <= y < sorted.len() && sorted[y] == found[b];
            assert(sorted[y].dest() > sorted[x].dest());
            assert(found_after(found[a], found[b]));
        }
    }
    lemma_sorted_edits_apply(dest, source, found);
}

/// Where the first `i` items of the two sequences agree, their distance is
/// zero and no edit is found.
pub proof fn lemma_equal_prefix<T>(dest: Seq<T>, source: Seq<T>, i: nat)
    requires
        i <= dest.len(),
        i <= source.len(),
        forall|t: int| 0 <= t < i ==> dest[t] == source[t],
    ensures
        edit_distance(dest, source, i, i) == 0,
        backtrack(dest, source, i, i) == Seq::<Edit>::empty(),
    decreases i,
{
    if i > 0 {
        lemma_equal_prefix(dest, source, (i - 1) as nat);
    }
}

/// A run of `c` equal items behind cell `(i, j)` is passed without an edit.
pub proof fn lemma_equal_tail<T>(dest: Seq<T>, source: Seq<T>, i: nat, j: nat, c: nat)
    requires
        i + c <= dest.len(),
        j + c <= source.len(),
        forall|t: int| i <= t < i + c ==> #[trigger] dest[t] == source[t - i + j],
    ensures
        edit_distance(dest, source, i + c, j + c) == edit_distance(dest, source, i, j),
        backtrack(dest, source, i + c, j + c) == backtrack(dest, source, i, j),
    decreases c,
{
    if c > 0 {
        lemma_equal_tail(dest, source, i, j, (c - 1) as nat);
        assert(dest[i + c - 1] == source[i + c - 1 - i + j]);
    }
}

/// One more item in the source, behind an equal prefix, costs at most one edit.
proof fn lemma_insert_costs_one<T>(dest: Seq<T>, source: Seq<T>, k: nat)
    requires
        k <= dest.len(),
        k < source.len(),
        forall|t: int| 0 <= t < k ==> dest[t] == source[t],
    ensures
        edit_distance(dest, source, k, k + 1) <= 1,
    decreases k,
{
    if k == 0 {
    } else if dest[k - 1] == source[k as int] {
        lemma_insert_costs_one(dest, source, (k - 1) as nat);
    } else {
        lemma_equal_prefix(dest, source, k);
    }
}

/// One more item in the destination, behind an equal prefix, costs at most
/// one edit.
proof fn lemma_delete_costs_one<T>(dest: Seq<T>, source: Seq<T>, k: nat)
    requires
        k < dest.len(),
        k <= source.len(),
        forall|t: int| 0 <= t < k ==> dest[t] == source[t],
    ensures
        edit_distance(dest, source, k + 1, k) <= 1,
    decreases k,
{
    if k == 0 {
    } else if dest[k as int] == source[k - 1] {
        lemma_delete_costs_one(dest, source, (k - 1) as nat);
    } else {
        lemma_equal_prefix(dest, source, k);
    }
}

/// By how many items a script lengthens the destination: its insertions less
/// its deletions.
pub open spec fn growth(edits: Seq<Edit>) -> int
    decreases edits.len(),
{
    if edits.len() == 0 {
        0
    } else {
        growth(edits.drop_first()) + match edits[0] {
            Edit::Insert { .. } => 1int,
            Edit::Delete { .. } => -1int,
            Edit::Replace { .. } => 0int,
        }
    }
}

/// The edits found from cell `(i, j)` lengthen the destination by `j - i`.
pub proof fn lemma_backtrack_growth<T>(dest: Seq<T>, source: Seq<T>, i: nat, j: nat)
    ensures
        growth(backtrack(dest, source, i, j)) == j - i,
    decreases i + j,
{
    let found = backtrack(dest, source, i, j);
    if i == 0 && j == 0 {
    } else if i > 0 && j > 0 && dest[i - 1] == source[j - 1] {
        lemma_backtrack_growth(dest, source, (i - 1) as nat, (j - 1) as nat);
    } else if i > 0 && (j == 0 || edit_distance(dest, source, i, j) == edit_distance(
        dest,
        source,
        (i - 1) as nat,
        j,
    ) + 1) {
        lemma_backtrack_growth(dest, source, (i - 1) as nat, j);
        assert(found.drop_first() == backtrack(dest, source, (i - 1) as nat, j));
    } else if j > 0 && (i == 0 || edit_distance(dest, source, i, j) == edit_distance(
        dest,
        source,
        i,
        (j - 1) as nat,
    ) + 1) {
        lemma_backtrack_growth(dest, source, i, (j - 1) as nat);
        assert(found.drop_first() == backtrack(dest, source, i, (j - 1) as nat));
    } else {
        lemma_backtrack_growth(dest, source, (i - 1) as nat, (j - 1) as nat);
        assert(found.drop_first() == backtrack(dest, source, (i - 1) as nat, (j - 1) as nat));
    }
}

/// A script of one edit is sorted as it is.
proof fn lemma_sorted_single(edits: Seq<Edit>)
    requires
        edits.len() == 1,
    ensures
        sorted_edits(edits) == edits,
{
    assert(edits.drop_last() == Seq::<Edit>::empty());
    assert(sorted_edits(edits.drop_last()) == Seq::<Edit>::empty());
    assert(insert_ordered(Seq::<Edit>::empty(), edits.last()) == Seq::<Edit>::empty().push(edits.last()));
    assert(Seq::<Edit>::empty().push(edits.last()) == edits);
}

/// Where `source` is `dest` with the one item at `k` replaced by another, the
/// script is the one replacement at `k`.
pub proof fn lemma_one_replacement<T>(dest: Seq<T>, source: Seq<T>, k: int)
    requires
        dest.len() <= usize::MAX,
        0 <= k < dest.len(),
        source == dest.update(k, source[k]),
        source[k] != dest[k],
    ensures
        edit_script(dest, source) == seq![
            Edit::Replace { dest_index: k as usize, source_index: k as usize },
        ],
{
    let m = dest.len();
    lemma_equal_tail(dest, source, (k + 1) as nat, (k + 1) as nat, (m - k - 1) as nat);
    lemma_equal_prefix(dest, source, k as nat);
    lemma_distance_at_least(dest, source, k as nat, (k + 1) as nat);
    lemma_distance_at_least(dest, source, (k + 1) as nat, k as nat);
    let found = backtrack(dest, source, (k + 1) as nat, (k + 1) as nat);
    let one = Edit::Replace { dest_index: k as usize, source_index: k as usize };
    assert(edit_distance(dest, source, (k + 1) as nat, (k + 1) as nat) == 1);
    assert(found == seq![one] + backtrack(dest, source, k as nat, k as nat));
    assert(found == seq![one]);
    lemma_sorted_single(found);
}

/// Where `source` is `dest` with one item inserted, the script is one
/// insertion.
pub proof fn lemma_one_insertion<T>(dest: Seq<T>, source: Seq<T>, k: int, item: T)
    requires
        0 <= k <= dest.len(),
        source == dest.insert(k, item),
    ensures
        edit_script(dest, source).len() == 1,
        edit_script(dest, source)[0] is Insert,
{
    let m = dest.len();
    let found = backtrack(dest, source, m, m + 1);
    lemma_equal_tail(dest, source, k as nat, (k + 1) as nat, (m - k) as nat);
    lemma_insert_costs_one(dest, source, k as nat);
    lemma_distance_at_least(dest, source, k as nat, (k + 1) as nat);
    lemma_backtrack_len(dest, source, m, m + 1);
    lemma_backtrack_growth(dest, source, m, m + 1);
    assert(found.drop_first().len() == 0);
    assert(growth(found.drop_first()) == 0);
    lemma_sorted_single(found);
}

/// Where `source` is `dest` with one item removed, the script is one
/// deletion.
pub proof fn lemma_one_deletion<T>(dest: Seq<T>, source: Seq<T>, k: int)
    requires
        0 <= k < dest.len(),
        source == dest.remove(k),
    ensures
        edit_script(dest, source).len() == 1,
        edit_script(dest, source)[0] is Delete,
{
    let m = dest.len();
    let found = backtrack(dest, source, m, (m - 1) as nat);
    lemma_equal_tail(dest, source, (k + 1) as nat, k as nat, (m - k - 1) as nat);
    lemma_delete_costs_one(dest, source, k as nat);
    lemma_distance_at_least(dest, source, (k + 1) as nat, k as nat);
    lemma_backtrack_len(dest, source, m, (m - 1) as nat);
    lemma_backtrack_growth(dest, source, m, (m - 1) as nat);
    assert(found.drop_first().len() == 0);
    assert(growth(found.drop_first()) == 0);
    lemma_sorted_single(found);
}

/// Every edit found from cell `(i, j)` names a source item among the first
/// `j`, and no destination position behind `i`.
pub proof fn lemma_backtrack_in_range<T>(dest: Seq<T>, source: Seq<T>, i: nat, j: nat)
    requires
        i <= usize::MAX,
        j <= usize::MAX,
    ensures
        forall|k: int|
            0 <= k < backtrack(dest, source, i, j).len() ==> (#[trigger] backtrack(
                dest,
                source,
                i,
                j,
            )[k]).fits(i as int, j as int),
    decreases i + j,
{
    let found = backtrack(dest, source, i, j);
    if i == 0 && j == 0 {
    } else if i > 0 && j > 0 && dest[i - 1] == source[j - 1] {
        let rest = backtrack(dest, source, (i - 1) as nat, (j - 1) as nat);
        lemma_backtrack_in_range(dest, source, (i - 1) as nat, (j - 1) as nat);
        assert forall|k: int| 0 <= k < found.len() implies (#[trigger] found[k]).fits(
            i as int,
            j as int,
        ) by {
            assert(found[k] == rest[k]);
            assert(rest[k].fits(i - 1, j - 1));
        }
    } else if i > 0 && (j == 0 || edit_distance(dest, source, i, j) == edit_distance(
        dest,
        source,
        (i - 1) as nat,
        j,
    ) + 1) {
        let rest = backtrack(dest, source, (i - 1) as nat, j);
        lemma_backtrack_in_range(dest, source, (i - 1) as nat, j);
        assert forall|k: int| 0 <= k < found.len() implies (#[trigger] found[k]).fits(
            i as int,
            j as int,
        ) by {
            if k > 0 {
                assert(found[k] == rest[k - 1]);
            }
        }
    } else if j > 0 && (i == 0 || edit_distance(dest, source, i, j) == edit_distance(
        dest,
        source,
        i,
        (j - 1) as nat,
    ) + 1) {
        let rest = backtrack(dest, source, i, (j - 1) as nat);
        lemma_backtrack_in_range(dest, source, i, (j - 1) as nat);
        assert forall|k: int| 0 <= k < found.len() implies (#[trigger] found[k]).fits(
            i as int,
            j as int,
        ) by {
            if k > 0 {
                assert(found[k] == rest[k - 1]);
            }
        }
    } else {
        let rest = backtrack(dest, source, (i - 1) as nat, (j - 1) as nat);
        lemma_backtrack_in_range(dest, source, (i - 1) as nat, (j - 1) as nat);
        assert forall|k: int| 0 <= k < found.len() implies (#[trigger] found[k]).fits(
            i as int,
            j as int,
        ) by {
            if k > 0 {
                assert(found[k] == rest[k - 1]);
            }
        }
    }
}

/// Every edit of the script of [`vec_edits`](super::vec_edits) names an item
/// of the source and a position of the destination, or, for an insertion, the
/// position behind its end.
pub proof fn lemma_edit_script_in_range<T>(dest: Seq<T>, source: Seq<T>)
    requires
        dest.len() <= usize::MAX,
        source.len() <= usize::MAX,
    ensures
        edit_script(dest, source).len() == backtrack(dest, source, dest.len(), source.len()).len(),
        forall|k: int|
            0 <= k < edit_script(dest, source).len() ==> (#[trigger] edit_script(dest, source)[k]).fits(
                dest.len() as int,
                source.len() as int,
            ),
{
    let found = backtrack(dest, source, dest.len(), source.len());
    lemma_backtrack_in_range(dest, source, dest.len(), source.len());
    lemma_sorted_edits_same_members(found);
    lemma_sorted_edits_ordered(found);
    assert forall|k: int| 0 <= k < edit_script(dest, source).len() implies (#[trigger] edit_script(
        dest,
        source,
    )[k]).fits(dest.len() as int, source.len() as int) by {
        let e = sorted_edits(found)[k];
        assert(found.contains(e));
        let w = choose|w: int| 0 <= w < found.len() && found[w] == e;
        assert(found[w].fits(dest.len() as int, source.len() as int));
    }
}

/// The script holds replacements only.
pub open spec fn replaces_only(edits: Seq<Edit>) -> bool {
    forall|k: int| 0 <= k < edits.len() ==> (#[trigger] edits[k]) is Replace
}

/// The edit replaces the item at a place where the two sequences differ by
/// the item of the source at that place.
pub open spec fn replaces_in_place<T>(dest: Seq<T>, source: Seq<T>, edit: Edit) -> bool {
    match edit {
        Edit::Replace { dest_index, source_index } => dest_index == source_index && dest_index
            < dest.len() && dest_index < source.len() && dest[dest_index as int]
            != source[source_index as int],
        _ => false,
    }
}

/// Where the edits found from cell `(i, i)` are replacements only, each of
/// them replaces in place, and each place in front of `i` at which the two
/// sequences differ is replaced.
pub proof fn lemma_backtrack_replaces<T>(dest: Seq<T>, source: Seq<T>, i: nat)
    requires
        i <= dest.len(),
        i <= source.len(),
        i <= usize::MAX,
        replaces_only(backtrack(dest, source, i, i)),
    ensures
        forall|t: int|
            0 <= t < backtrack(dest, source, i, i).len() ==> replaces_in_place(
                dest,
                source,
                #[trigger] backtrack(dest, source, i, i)[t],
            ),
        forall|k: int|
            0 <= k < i && dest[k] != source[k] ==> exists|t: int|
                0 <= t < backtrack(dest, source, i, i).len() && (#[trigger] backtrack(
                    dest,
                    source,
                    i,
                    i,
                )[t]).dest() == k,
    decreases i,
{
    let found = backtrack(dest, source, i, i);
    if i == 0 {
    } else if dest[i - 1] == source[i - 1] {
        let rest = backtrack(dest, source, (i - 1) as nat, (i - 1) as nat);
        assert(found == rest);
        lemma_backtrack_replaces(dest, source, (i - 1) as nat);
        assert forall|t: int| 0 <= t < found.len() implies replaces_in_place(
            dest,
            source,
            #[trigger] found[t],
        ) by {
            assert(replaces_in_place(dest, source, rest[t]));
        }
        assert forall|k: int| 0 <= k < i && dest[k] != source[k] implies exists|t: int|
            0 <= t < found.len() && (#[trigger] found[t]).dest() == k by {
            let t = choose|t: int| 0 <= t < rest.len() && (#[trigger] rest[t]).dest() == k;
            assert(found[t] == rest[t]);
        }
    } else {
        let rest = backtrack(dest, source, (i - 1) as nat, (i - 1) as nat);
        assert(found[0] is Replace);
        assert(found == seq![
            Edit::Replace { dest_index: (i - 1) as usize, source_index: (i - 1) as usize },
        ] + rest);
        assert forall|k: int| 0 <= k < rest.len() implies (#[trigger] rest[k]) is Replace by {
            assert(found[k + 1] == rest[k]);
        }
        lemma_backtrack_replaces(dest, source, (i - 1) as nat);
        assert forall|t: int| 0 <= t < found.len() implies replaces_in_place(
            dest,
            source,
            #[trigger] found[t],
        ) by {
            if t > 0 {
                assert(found[t] == rest[t - 1]);
            }
        }
        assert forall|k: int| 0 <= k < i && dest[k] != source[k] implies exists|t: int|
            0 <= t < found.len() && (#[trigger] found[t]).dest() == k by {
            if k == i - 1 {
                assert(found[0].dest() == k);
            } else {
                let t = choose|t: int| 0 <= t < rest.len() && (#[trigger] rest[t]).dest() == k;
                assert(found[t + 1] == rest[t]);
            }
        }
    }
}

/// Where the script for two sequences of one length holds replacements only,
/// each of them replaces in place, and each place at which the sequences
/// differ is replaced.
pub proof fn lemma_script_replaces<T>(dest: Seq<T>, source: Seq<T>)
    requires
        dest.len() == source.len(),
        dest.len() <= usize::MAX,
        replaces_only(edit_script(dest, source)),
    ensures
        forall|t: int|
            0 <= t < edit_script(dest, source).len() ==> replaces_in_place(
                dest,
                source,
                #[trigger] edit_script(dest, source)[t],
            ),
        forall|k: int|
            0 <= k < dest.len() && dest[k] != source[k] ==> exists|t: int|
                0 <= t < edit_script(dest, source).len() && (#[trigger] edit_script(
                    dest,
                    source,
                )[t]).dest() == k,
{
    let found = backtrack(dest, source, dest.len(), source.len());
    let script = edit_script(dest, source);
    lemma_sorted_edits_same_members(found);
    lemma_sorted_edits_ordered(found);
    assert forall|k: int| 0 <= k < found.len() implies (#[trigger] found[k]) is Replace by {
        assert(script.contains(found[k]));
        let w = choose|w: int| 0 <= w < script.len() && script[w] == found[k];
        assert(script[w] is Replace);
    }
    lemma_backtrack_replaces(dest, source, dest.len());
    assert forall|t: int| 0 <= t < script.len() implies replaces_in_place(
        dest,
        source,
        #[trigger] script[t],
    ) by {
        assert(found.contains(script[t]));
        let w = choose|w: int| 0 <= w < found.len() && found[w] == script[t];
        assert(replaces_in_place(dest, source, found[w]));
    }
    assert forall|k: int| 0 <= k < dest.len() && dest[k] != source[k] implies exists|t: int|
        0 <= t < script.len() && (#[trigger] script[t]).dest() == k by {
        let w = choose|w: int| 0 <= w < found.len() && (#[trigger] found[w]).dest() == k;
        assert(script.contains(found[w]));
        let t = choose|t: int| 0 <= t < script.len() && script[t] == found[w];
        assert(script[t].dest() == k);
    }
}

} // verus!
