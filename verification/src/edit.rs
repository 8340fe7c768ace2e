//! Edit scripts between two sequences.
//!
//! [`vec_edits`] computes a minimum-length script of deletions, insertions and
//! replacements that turns a destination sequence into a source sequence
//! (Wagner–Fischer), and hands it out in the order in which the edits are meant
//! to be applied to one live vector: replacements, then insertions, then
//! deletions.

pub mod laws;
pub mod order;

use vstd::prelude::*;
use vstd::laws_eq::obeys_concrete_eq;

verus! {

/// One edit of a destination vector. `dest_index` is a position in the
/// destination, `source_index` the position in the source of the item that is
/// written.
#[derive(Debug, Clone, Copy, PartialEq, Eq, Structural)]
pub enum Edit {
    Delete { dest_index: usize },
    Replace { dest_index: usize, source_index: usize },
    Insert { dest_index: usize, source_index: usize },
}

impl Edit {
    /// The class of an edit in the application order: replacements come
    /// first, then insertions, then deletions.
    pub open spec fn rank(self) -> int {
        match self {
            Edit::Replace { .. } => 0,
            Edit::Insert { .. } => 1,
            Edit::Delete { .. } => 2,
        }
    }

    /// The destination position that the edit touches.
    pub open spec fn dest(self) -> int {
        match self {
            Edit::Replace { dest_index, .. } => dest_index as int,
            Edit::Insert { dest_index, .. } => dest_index as int,
            Edit::Delete { dest_index } => dest_index as int,
        }
    }

    /// `self` is strictly earlier than `other` in the application order:
    /// a lower class wins; replacements ascend by destination position,
    /// insertions and deletions descend.
    pub open spec fn before(self, other: Edit) -> bool {
        self.rank() < other.rank() || (self.rank() == other.rank() && if self.rank() == 0 {
            self.dest() < other.dest()
        } else {
            self.dest() > other.dest()
        })
    }

    /// Whether `self` must be applied strictly before `other`.
    pub fn precedes(&self, other: &Edit) -> (r: bool)
        ensures
            r == self.before(*other),
    {
        match (*self, *other) {
            (Edit::Delete { dest_index: a }, Edit::Delete { dest_index: b }) => b < a,
            (Edit::Insert { dest_index: a, .. }, Edit::Insert { dest_index: b, .. }) => b < a,
            (Edit::Replace { dest_index: a, .. }, Edit::Replace { dest_index: b, .. }) => a < b,
            (Edit::Replace { .. }, _) => true,
            (_, Edit::Replace { .. }) => false,
            (Edit::Insert { .. }, _) => true,
            (_, Edit::Insert { .. }) => false,
        }
    }

    /// Whether the edit can be applied to a destination of `dest_len` items
    /// with a source of `source_len` items.
    pub open spec fn fits(self, dest_len: int, source_len: int) -> bool {
        match self {
            Edit::Delete { dest_index } => dest_index < dest_len,
            Edit::Replace { dest_index, source_index } => dest_index < dest_len && source_index
                < source_len,
            Edit::Insert { dest_index, source_index } => dest_index <= dest_len && source_index
                < source_len,
        }
    }

    /// The destination after this one edit.
    pub open spec fn apply<T>(self, dest: Seq<T>, source: Seq<T>) -> Seq<T> {
        match self {
            Edit::Delete { dest_index } => dest.remove(dest_index as int),
            Edit::Replace { dest_index, source_index } => dest.update(
                dest_index as int,
                source[source_index as int],
            ),
            Edit::Insert { dest_index, source_index } => dest.insert(
                dest_index as int,
                source[source_index as int],
            ),
        }
    }
}

/// The destination after the edits were applied one after the other, first to
/// last, each to the result of the one before.
pub open spec fn apply_edits<T>(dest: Seq<T>, source: Seq<T>, edits: Seq<Edit>) -> Seq<T>
    decreases edits.len(),
{
    if edits.len() == 0 {
        dest
    } else {
        edits.last().apply(apply_edits(dest, source, edits.drop_last()), source)
    }
}

/// Every edit of the script is in bounds at the moment it is applied.
pub open spec fn edits_fit<T>(dest: Seq<T>, source: Seq<T>, edits: Seq<Edit>) -> bool
    decreases edits.len(),
{
    edits.len() == 0 || (edits_fit(dest, source, edits.drop_last()) && edits.last().fits(
        apply_edits(dest, source, edits.drop_last()).len() as int,
        source.len() as int,
    ))
}

/// Applies the edits to `dest` in place, in the order given, taking written
/// items from `source`.
pub fn _vec_apply_edits<T: Copy>(dest: &mut Vec<T>, source: &Vec<T>, edits: Vec<Edit>)
    requires
        edits_fit(old(dest)@, source@, edits@),
    ensures
        final(dest)@ == apply_edits(old(dest)@, source@, edits@),
{
    let mut k: usize = 0;
    while k < edits.len()
        invariant
            k <= edits.len(),
            edits_fit(old(dest)@, source@, edits@.take(k as int)),
            dest@ == apply_edits(old(dest)@, source@, edits@.take(k as int)),
            edits_fit(old(dest)@, source@, edits@),
        decreases edits.len() - k,
    {
        proof {
            laws::lemma_fit_prefix(old(dest)@, source@, edits@, k as int + 1);
            assert(edits@.take(k as int + 1).drop_last() == edits@.take(k as int));
            assert(edits@.take(k as int + 1).last() == edits@[k as int]);
        }
        match edits[k] {
            Edit::Insert { dest_index, source_index } => {
                dest.insert(dest_index, source[source_index]);
            },
            Edit::Delete { dest_index } => {
                dest.remove(dest_index);
            },
            Edit::Replace { dest_index, source_index } => {
                dest[dest_index] = source[source_index];
            },
        }
        k += 1;
    }
    assert(edits@.take(k as int) == edits@);
}

/// `edit` put into an ordered script behind every edit that is not strictly
/// later than it.
pub open spec fn insert_ordered(script: Seq<Edit>, edit: Edit) -> Seq<Edit>
    decreases script.len(),
{
    if script.len() > 0 && edit.before(script.last()) {
        insert_ordered(script.drop_last(), edit).push(script.last())
    } else {
        script.push(edit)
    }
}

/// The edits in application order. Edits that the order does not tell apart
/// keep the order they came in.
pub open spec fn sorted_edits(edits: Seq<Edit>) -> Seq<Edit>
    decreases edits.len(),
{
    if edits.len() == 0 {
        edits
    } else {
        insert_ordered(sorted_edits(edits.drop_last()), edits.last())
    }
}

/// No edit of the script is strictly later than one that follows it.
pub open spec fn edits_ordered(edits: Seq<Edit>) -> bool {
    forall|i: int, j: int| 0 <= i < j < edits.len() ==> !(#[trigger] edits[j]).before(#[trigger] edits[i])
}

/// Sorts the edits into application order, keeping the relative order of
/// edits that the order does not tell apart.
pub fn sort_edits(edits: &mut Vec<Edit>)
    ensures
        final(edits)@ == sorted_edits(old(edits)@),
        edits_ordered(final(edits)@),
        final(edits)@.to_multiset() == old(edits)@.to_multiset(),
{
    let mut out: Vec<Edit> = Vec::new();
    let mut k: usize = 0;
    while k < edits.len()
        invariant
            k <= edits.len(),
            edits@ == old(edits)@,
            out@ == sorted_edits(edits@.take(k as int)),
        decreases edits.len() - k,
    {
        let e: Edit = edits[k];
        let mut p: usize = out.len();
        while p > 0 && e.precedes(&out[p - 1])
            invariant
                p <= out.len(),
                forall|i: int| p <= i < out.len() ==> e.before(#[trigger] out@[i]),
            decreases p,
        {
            p -= 1;
        }
        proof {
            laws::lemma_insert_ordered_at(out@, e, p as int);
            assert(edits@.take(k as int + 1).drop_last() == edits@.take(k as int));
            assert(edits@.take(k as int + 1).last() == e);
        }
        out.insert(p, e);
        k += 1;
    }
    proof {
        assert(edits@.take(k as int) == edits@);
        laws::lemma_sorted_edits_ordered(edits@);
        laws::lemma_sorted_edits_permutes(edits@);
    }
    *edits = out;
}

/// The least of three numbers.
pub open spec fn min3(a: nat, b: nat, c: nat) -> nat {
    if a <= b && a <= c {
        a
    } else if b <= c {
        b
    } else {
        c
    }
}

/// The edit distance between the first `i` items of `dest` and the first `j`
/// items of `source`: the least number of deletions, insertions and
/// replacements that turn the one into the other.
pub open spec fn edit_distance<T>(dest: Seq<T>, source: Seq<T>, i: nat, j: nat) -> nat
    decreases i + j,
{
    if i == 0 {
        j
    } else if j == 0 {
        i
    } else if dest[i - 1] == source[j - 1] {
        edit_distance(dest, source, (i - 1) as nat, (j - 1) as nat)
    } else {
        1 + min3(
            edit_distance(dest, source, (i - 1) as nat, (j - 1) as nat),
            edit_distance(dest, source, i, (j - 1) as nat),
            edit_distance(dest, source, (i - 1) as nat, j),
        )
    }
}

/// The edits found on the way back from cell `(i, j)` of the distance matrix
/// to cell `(0, 0)`, in the order in which they are found. Equal items are
/// passed without an edit; otherwise a deletion is taken if it accounts for
/// the distance, else an insertion, else a replacement.
pub open spec fn backtrack<T>(dest: Seq<T>, source: Seq<T>, i: nat, j: nat) -> Seq<Edit>
    decreases i + j,
{
    if i == 0 && j == 0 {
        Seq::empty()
    } else if i > 0 && j > 0 && dest[i - 1] == source[j - 1] {
        backtrack(dest, source, (i - 1) as nat, (j - 1) as nat)
    } else if i > 0 && (j == 0 || edit_distance(dest, source, i, j) == edit_distance(
        dest,
        source,
        (i - 1) as nat,
        j,
    ) + 1) {
        seq![Edit::Delete { dest_index: (i - 1) as usize }] + backtrack(
            dest,
            source,
            (i - 1) as nat,
            j,
        )
    } else if j > 0 && (i == 0 || edit_distance(dest, source, i, j) == edit_distance(
        dest,
        source,
        i,
        (j - 1) as nat,
    ) + 1) {
        seq![Edit::Insert { dest_index: i as usize, source_index: (j - 1) as usize }] + backtrack(
            dest,
            source,
            i,
            (j - 1) as nat,
        )
    } else {
        seq![Edit::Replace { dest_index: (i - 1) as usize, source_index: (j - 1) as usize }]
            + backtrack(dest, source, (i - 1) as nat, (j - 1) as nat)
    }
}

/// The script that [`vec_edits`] returns for `dest` and `source`.
pub open spec fn edit_script<T>(dest: Seq<T>, source: Seq<T>) -> Seq<Edit> {
    sorted_edits(backtrack(dest, source, dest.len(), source.len()))
}

/// One row of the distance matrix: the distances from the first `i` items of
/// `dest` to each prefix of `source`.
spec fn is_row<T>(row: Seq<u64>, dest: Seq<T>, source: Seq<T>, i: nat) -> bool {
    &&& row.len() == source.len() + 1
    &&& forall|j: int| 0 <= j <= source.len() ==> #[trigger] row[j] == edit_distance(dest, source, i, j as nat)
}

fn first_row<T>(dest: &Vec<T>, source: &Vec<T>) -> (row: Vec<u64>)
    ensures
        is_row(row@, dest@, source@, 0),
{
    let mut row: Vec<u64> = Vec::new();
    row.push(0);
    let mut j: usize = 0;
    while j < source.len()
        invariant
            j <= source.len(),
            row.len() == j + 1,
            forall|b: int| 0 <= b <= j ==> #[trigger] row[b] == edit_distance(dest@, source@, 0, b as nat),
        decreases source.len() - j,
    {
        row.push(j as u64 + 1);
        j += 1;
    }
    row
}

fn next_row<T: PartialEq>(dest: &Vec<T>, source: &Vec<T>, above: &Vec<u64>, i: usize) -> (row: Vec<u64>)
    requires
        obeys_concrete_eq::<T>(),
        i < dest.len(),
        is_row(above@, dest@, source@, i as nat),
    ensures
        is_row(row@, dest@, source@, (i + 1) as nat),
{
    let mut row: Vec<u64> = Vec::new();
    row.push(i as u64 + 1);
    let mut j: usize = 0;
    while j < source.len()
        invariant
            obeys_concrete_eq::<T>(),
            j <= source.len(),
            i < dest.len(),
            is_row(above@, dest@, source@, i as nat),
            row.len() == j + 1,
            forall|b: int| 0 <= b <= j ==> #[trigger] row[b] == edit_distance(dest@, source@, (i + 1) as nat, b as nat),
        decreases source.len() - j,
    {
        proof {
            reveal(obeys_concrete_eq);
            laws::lemma_distance_bound(dest@, source@, (i + 1) as nat, (j + 1) as nat);
        }
        let cell: u64 = if dest[i] == source[j] {
            above[j]
        } else {
            let diagonal: u64 = above[j];
            let left: u64 = row[j];
            let up: u64 = above[j + 1];
            let least: u64 = if diagonal <= left && diagonal <= up {
                diagonal
            } else if left <= up {
                left
            } else {
                up
            };
            1 + least
        };
        row.push(cell);
        j += 1;
    }
    row
}

/// Finds a shortest script of edits that turns `dest` into `source`, sorted
/// into application order.
pub fn vec_edits<T>(dest: &Vec<T>, source: &Vec<T>) -> (edits: Vec<Edit>) where T: PartialEq
    requires
        obeys_concrete_eq::<T>(),
    ensures
        edits@ == edit_script(dest@, source@),
{
    let dest_len: usize = dest.len();
    let source_len: usize = source.len();

    // Matrix of edit distances, one row for each prefix of `dest`.
    let mut dist: Vec<Vec<u64>> = Vec::new();
    dist.push(first_row(dest, source));
    let mut r: usize = 0;
    while r < dest_len
        invariant
            obeys_concrete_eq::<T>(),
            dest_len == dest.len(),
            r <= dest_len,
            dist.len() == r + 1,
            forall|a: int| 0 <= a <= r ==> is_row((#[trigger] dist[a])@, dest@, source@, a as nat),
        decreases dest_len - r,
    {
        let row: Vec<u64> = next_row(dest, source, &dist[r], r);
        dist.push(row);
        r += 1;
    }

    // Walk back from the last cell, collecting the edits.
    let mut i: usize = dest_len;
    let mut j: usize = source_len;
    let mut edits: Vec<Edit> = Vec::new();
    while i > 0 || j > 0
        invariant
            obeys_concrete_eq::<T>(),
            dest_len == dest.len(),
            source_len == source.len(),
            i <= dest_len,
            j <= source_len,
            dist.len() == dest_len + 1,
            forall|a: int| 0 <= a <= dest_len ==> is_row((#[trigger] dist[a])@, dest@, source@, a as nat),
            edits@ + backtrack(dest@, source@, i as nat, j as nat) == backtrack(
                dest@,
                source@,
                dest_len as nat,
                source_len as nat,
            ),
        decreases i + j,
    {
        proof {
            reveal(obeys_concrete_eq);
            assert(is_row(dist[i as int]@, dest@, source@, i as nat));
            if i > 0 {
                assert(is_row(dist[i - 1]@, dest@, source@, (i - 1) as nat));
            }
            laws::lemma_distance_bound(dest@, source@, (i - 1) as nat, j as nat);
            laws::lemma_distance_bound(dest@, source@, i as nat, (j - 1) as nat);
        }
        let ghost rest = backtrack(dest@, source@, i as nat, j as nat);
        let ghost found = edits@;
        if i > 0 && j > 0 && dest[i - 1] == source[j - 1] {
            i -= 1;
            j -= 1;
        } else if i > 0 && (j == 0 || (dist[i][j] > 0 && dist[i][j] - 1 == dist[i - 1][j])) {
            edits.push(Edit::Delete { dest_index: i - 1 });
            i -= 1;
        } else if j > 0 && (i == 0 || (dist[i][j] > 0 && dist[i][j] - 1 == dist[i][j - 1])) {
            edits.push(Edit::Insert { dest_index: i, source_index: j - 1 });
            j -= 1;
        } else {
            edits.push(Edit::Replace { dest_index: i - 1, source_index: j - 1 });
            i -= 1;
            j -= 1;
        }
        proof {
            let tail = backtrack(dest@, source@, i as nat, j as nat);
            if edits@.len() > found.len() {
                assert(rest == seq![edits@.last()] + tail);
                assert(edits@ + tail == found + (seq![edits@.last()] + tail));
            }
        }
    }
    assert(edits@ + Seq::<Edit>::empty() == edits@);

    // Sort the edits for application in place.
    sort_edits(&mut edits);
    edits
}

} // verus!
