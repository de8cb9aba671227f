//! The entries of an edit script, and what can be read off a sequence of them.

use vstd::prelude::*;

verus! {

/// One row of the edit script, by the index of the row in the sequence it
/// comes from. A common row carries its index in both.
#[derive(Debug, Clone, Copy, PartialEq, Eq, Structural)]
pub enum DiffOp {
    /// The row is in `before` only.
    Removed { before_index: usize },
    /// The row is in both sequences.
    Common { before_index: usize, after_index: usize },
    /// The row is in `after` only.
    Added { after_index: usize },
}

/// `Removed` for the before-rows `from..to`, in order.
pub open spec fn removed_run(from: int, to: int) -> Seq<DiffOp> {
    Seq::new((to - from) as nat, |k: int| DiffOp::Removed { before_index: (from + k) as usize })
}

/// `Added` for the after-rows `from..to`, in order.
pub open spec fn added_run(from: int, to: int) -> Seq<DiffOp> {
    Seq::new((to - from) as nat, |k: int| DiffOp::Added { after_index: (from + k) as usize })
}

/// `Common` for `count` rows that start at `before_from` in one sequence and
/// at `after_from` in the other.
pub open spec fn common_run(before_from: int, after_from: int, count: int) -> Seq<DiffOp> {
    Seq::new(
        count as nat,
        |k: int|
            DiffOp::Common { before_index: (before_from + k) as usize, after_index: (after_from + k) as usize },
    )
}

/// The integers `from..to` in order.
pub open spec fn ascending(from: int, to: int) -> Seq<int> {
    Seq::new((to - from) as nat, |k: int| from + k)
}

/// The before-row that an entry names, if it names one.
pub open spec fn before_index_of(op: DiffOp) -> Seq<int> {
    match op {
        DiffOp::Removed { before_index } => seq![before_index as int],
        DiffOp::Common { before_index, .. } => seq![before_index as int],
        DiffOp::Added { .. } => Seq::empty(),
    }
}

/// The after-row that an entry names, if it names one.
pub open spec fn after_index_of(op: DiffOp) -> Seq<int> {
    match op {
        DiffOp::Added { after_index } => seq![after_index as int],
        DiffOp::Common { after_index, .. } => seq![after_index as int],
        DiffOp::Removed { .. } => Seq::empty(),
    }
}

/// The before-indices of the removed and common rows of `ops`, in order.
pub open spec fn before_indices(ops: Seq<DiffOp>) -> Seq<int>
    decreases ops.len(),
{
    if ops.len() == 0 {
        Seq::empty()
    } else {
        before_index_of(ops[0]) + before_indices(ops.drop_first())
    }
}

/// The after-indices of the added and common rows of `ops`, in order.
pub open spec fn after_indices(ops: Seq<DiffOp>) -> Seq<int>
    decreases ops.len(),
{
    if ops.len() == 0 {
        Seq::empty()
    } else {
        after_index_of(ops[0]) + after_indices(ops.drop_first())
    }
}

/// The number of common rows in `ops`.
pub open spec fn count_common(ops: Seq<DiffOp>) -> nat
    decreases ops.len(),
{
    if ops.len() == 0 {
        0
    } else {
        count_common(ops.drop_first()) + if ops[0] is Common {
            1nat
        } else {
            0nat
        }
    }
}

/// The number of removed rows in `ops`.
pub open spec fn count_removed(ops: Seq<DiffOp>) -> nat
    decreases ops.len(),
{
    if ops.len() == 0 {
        0
    } else {
        count_removed(ops.drop_first()) + if ops[0] is Removed {
            1nat
        } else {
            0nat
        }
    }
}

/// The number of added rows in `ops`.
pub open spec fn count_added(ops: Seq<DiffOp>) -> nat
    decreases ops.len(),
{
    if ops.len() == 0 {
        0
    } else {
        count_added(ops.drop_first()) + if ops[0] is Added {
            1nat
        } else {
            0nat
        }
    }
}

/// What the readings of an edit script give for `head` followed by `tail`.
pub proof fn lemma_readings_cons(head: DiffOp, tail: Seq<DiffOp>)
    ensures
        before_indices(seq![head] + tail) == before_index_of(head) + before_indices(tail),
        after_indices(seq![head] + tail) == after_index_of(head) + after_indices(tail),
        count_common(seq![head] + tail) == count_common(tail) + if head is Common {
            1nat
        } else {
            0nat
        },
        count_removed(seq![head] + tail) == count_removed(tail) + if head is Removed {
            1nat
        } else {
            0nat
        },
        count_added(seq![head] + tail) == count_added(tail) + if head is Added {
            1nat
        } else {
            0nat
        },
{
    assert((seq![head] + tail).drop_first() =~= tail);
}

/// The readings of two scripts one after the other are the readings of each,
/// one after the other.
pub proof fn lemma_readings_concat(first: Seq<DiffOp>, second: Seq<DiffOp>)
    ensures
        before_indices(first + second) == before_indices(first) + before_indices(second),
        after_indices(first + second) == after_indices(first) + after_indices(second),
        count_common(first + second) == count_common(first) + count_common(second),
        count_removed(first + second) == count_removed(first) + count_removed(second),
        count_added(first + second) == count_added(first) + count_added(second),
    decreases first.len(),
{
    if first.len() == 0 {
        assert(first + second =~= second);
    } else {
        let head = first[0];
        let tail = first.drop_first();
        assert(first + second =~= seq![head] + (tail + second));
        lemma_readings_concat(tail, second);
        lemma_readings_cons(head, tail + second);
    }
}

/// The index readings of a script with one more entry at its end are those
/// of the script, and then the rows that the entry names.
pub proof fn lemma_readings_push(ops: Seq<DiffOp>, last: DiffOp)
    ensures
        before_indices(ops.push(last)) == before_indices(ops) + before_index_of(last),
        after_indices(ops.push(last)) == after_indices(ops) + after_index_of(last),
{
    lemma_readings_concat(ops, seq![last]);
    lemma_readings_cons(last, Seq::empty());
    assert(ops.push(last) =~= ops + seq![last]);
    assert(seq![last] + Seq::empty() =~= seq![last]);
}

/// A run of removed rows names its before-rows and nothing else.
pub proof fn lemma_removed_run_readings(from: int, to: int)
    requires
        0 <= from <= to <= usize::MAX,
    ensures
        before_indices(removed_run(from, to)) == ascending(from, to),
        after_indices(removed_run(from, to)) == Seq::<int>::empty(),
        count_common(removed_run(from, to)) == 0,
        count_removed(removed_run(from, to)) == to - from,
        count_added(removed_run(from, to)) == 0,
    decreases to - from,
{
    if from < to {
        let head = DiffOp::Removed { before_index: from as usize };
        assert(removed_run(from, to) =~= seq![head] + removed_run(from + 1, to));
        lemma_removed_run_readings(from + 1, to);
        lemma_readings_cons(head, removed_run(from + 1, to));
    }
}

/// A run of added rows names its after-rows and nothing else.
pub proof fn lemma_added_run_readings(from: int, to: int)
    requires
        0 <= from <= to <= usize::MAX,
    ensures
        before_indices(added_run(from, to)) == Seq::<int>::empty(),
        after_indices(added_run(from, to)) == ascending(from, to),
        count_common(added_run(from, to)) == 0,
        count_removed(added_run(from, to)) == 0,
        count_added(added_run(from, to)) == to - from,
    decreases to - from,
{
    if from < to {
        let head = DiffOp::Added { after_index: from as usize };
        assert(added_run(from, to) =~= seq![head] + added_run(from + 1, to));
        lemma_added_run_readings(from + 1, to);
        lemma_readings_cons(head, added_run(from + 1, to));
    }
}

/// A run of common rows names its rows on both sides.
pub proof fn lemma_common_run_readings(before_from: int, after_from: int, count: int)
    requires
        0 <= count,
        0 <= before_from,
        0 <= after_from,
        before_from + count <= usize::MAX,
        after_from + count <= usize::MAX,
    ensures
        before_indices(common_run(before_from, after_from, count)) == ascending(
            before_from,
            before_from + count,
        ),
        after_indices(common_run(before_from, after_from, count)) == ascending(after_from, after_from + count),
        count_common(common_run(before_from, after_from, count)) == count,
        count_removed(common_run(before_from, after_from, count)) == 0,
        count_added(common_run(before_from, after_from, count)) == 0,
    decreases count,
{
    if count > 0 {
        let head = DiffOp::Common { before_index: before_from as usize, after_index: after_from as usize };
        let tail = common_run(before_from + 1, after_from + 1, count - 1);
        assert(common_run(before_from, after_from, count) =~= seq![head] + tail);
        lemma_common_run_readings(before_from + 1, after_from + 1, count - 1);
        lemma_readings_cons(head, tail);
    }
}

/// Every row of a script is removed, common or added, and the index
/// readings have one entry for each row that they read.
pub proof fn lemma_counts(ops: Seq<DiffOp>)
    ensures
        ops.len() == count_removed(ops) + count_common(ops) + count_added(ops),
        before_indices(ops).len() == count_removed(ops) + count_common(ops),
        after_indices(ops).len() == count_added(ops) + count_common(ops),
    decreases ops.len(),
{
    if ops.len() > 0 {
        lemma_counts(ops.drop_first());
    }
}

/// The index readings of a script list the rows of each of its entries.
pub proof fn lemma_row_is_read(ops: Seq<DiffOp>, y: int)
    requires
        0 <= y < ops.len(),
    ensures
        forall|k: int|
            0 <= k < before_index_of(ops[y]).len() ==> before_indices(ops).contains(
                #[trigger] before_index_of(ops[y])[k],
            ),
        forall|k: int|
            0 <= k < after_index_of(ops[y]).len() ==> after_indices(ops).contains(
                #[trigger] after_index_of(ops[y])[k],
            ),
    decreases y,
{
    let rest = ops.drop_first();
    let before_head = before_index_of(ops[0]);
    let after_head = after_index_of(ops[0]);
    if y == 0 {
        assert forall|k: int| 0 <= k < before_head.len() implies before_indices(ops).contains(
            #[trigger] before_head[k],
        ) by {
            assert(before_indices(ops)[k] == before_head[k]);
        }
        assert forall|k: int| 0 <= k < after_head.len() implies after_indices(ops).contains(
            #[trigger] after_head[k],
        ) by {
            assert(after_indices(ops)[k] == after_head[k]);
        }
    } else {
        lemma_row_is_read(rest, y - 1);
        assert(rest[y - 1] == ops[y]);
        assert forall|k: int| 0 <= k < before_index_of(ops[y]).len() implies before_indices(ops).contains(
            #[trigger] before_index_of(ops[y])[k],
        ) by {
            let at = before_indices(rest).index_of(before_index_of(ops[y])[k]);
            assert(before_indices(ops)[before_head.len() + at] == before_indices(rest)[at]);
        }
        assert forall|k: int| 0 <= k < after_index_of(ops[y]).len() implies after_indices(ops).contains(
            #[trigger] after_index_of(ops[y])[k],
        ) by {
            let at = after_indices(rest).index_of(after_index_of(ops[y])[k]);
            assert(after_indices(ops)[after_head.len() + at] == after_indices(rest)[at]);
        }
    }
}

} // verus!
