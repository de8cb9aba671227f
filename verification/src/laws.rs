//! What holds of every edit script: which rows it names, how many of each
//! kind, and when setting the common ends aside leaves it unchanged.

use crate::edit::{
    backtrack, common_prefix_len, common_suffix_len, edit_script, lemma_prefix_run_bound,
    lemma_suffix_run_bound, middle_fits, prefix_run, shorter, suffix_run, window,
};
use crate::ops::{
    added_run, after_index_of, after_indices, ascending, before_index_of, before_indices, common_run,
    count_added, count_common, count_removed, lemma_added_run_readings, lemma_common_run_readings,
    lemma_counts, lemma_readings_concat, lemma_readings_cons, lemma_removed_run_readings,
    lemma_row_is_read, removed_run, DiffOp,
};
use crate::table::{kept_rows, lcs_len, lcs_table, lemma_lcs_len_bound, lemma_lcs_len_step};
use vstd::prelude::*;

verus! {

/// The walk from `(i, j)` names every before-row from `j` on and every
/// after-row from `i` on, each once and in order, and has as many common
/// rows as the longest common subsequence from there is long.
pub proof fn lemma_backtrack_readings(
    eq: spec_fn(int, int) -> bool,
    after_len: int,
    before_len: int,
    i: int,
    j: int,
    offset: int,
)
    requires
        0 <= i <= after_len,
        0 <= j <= before_len,
        0 <= offset,
        after_len + offset <= usize::MAX,
        before_len + offset <= usize::MAX,
    ensures
        before_indices(backtrack(eq, after_len, before_len, i, j, offset)) == ascending(
            j + offset,
            before_len + offset,
        ),
        after_indices(backtrack(eq, after_len, before_len, i, j, offset)) == ascending(
            i + offset,
            after_len + offset,
        ),
        count_common(backtrack(eq, after_len, before_len, i, j, offset)) == lcs_len(
            eq,
            after_len,
            before_len,
            i,
            j,
        ),
    decreases after_len - i + before_len - j,
{
    let ops = backtrack(eq, after_len, before_len, i, j, offset);
    if i >= after_len || j >= before_len {
        let added = added_run(i + offset, after_len + offset);
        let removed = removed_run(j + offset, before_len + offset);
        lemma_added_run_readings(i + offset, after_len + offset);
        lemma_removed_run_readings(j + offset, before_len + offset);
        lemma_readings_concat(added, removed);
    } else if eq(i, j) {
        let tail = backtrack(eq, after_len, before_len, i + 1, j + 1, offset);
        lemma_backtrack_readings(eq, after_len, before_len, i + 1, j + 1, offset);
        lemma_readings_cons(ops[0], tail);
    } else if lcs_len(eq, after_len, before_len, i + 1, j) >= lcs_len(eq, after_len, before_len, i, j + 1) {
        let tail = backtrack(eq, after_len, before_len, i + 1, j, offset);
        lemma_backtrack_readings(eq, after_len, before_len, i + 1, j, offset);
        lemma_readings_cons(ops[0], tail);
    } else {
        let tail = backtrack(eq, after_len, before_len, i, j + 1, offset);
        lemma_backtrack_readings(eq, after_len, before_len, i, j + 1, offset);
        lemma_readings_cons(ops[0], tail);
    }
}

/// The ends of the two sequences that the edit script sets aside lie within
/// both, and leave a middle of no negative length.
pub proof fn lemma_trim_bounds(eq: spec_fn(int, int) -> bool, after_len: int, before_len: int)
    requires
        0 <= after_len,
        0 <= before_len,
    ensures
        0 <= common_prefix_len(eq, after_len, before_len),
        0 <= common_suffix_len(eq, after_len, before_len),
        common_prefix_len(eq, after_len, before_len) + common_suffix_len(eq, after_len, before_len)
            <= shorter(after_len, before_len),
{
    lemma_prefix_run_bound(eq, after_len, before_len, 0);
    lemma_suffix_run_bound(
        eq,
        after_len,
        before_len,
        shorter(after_len, before_len) - common_prefix_len(eq, after_len, before_len),
        0,
    );
}

/// Reconstruction: read in order, the before-indices of the removed and
/// common rows of an edit script are `0..before_len`, and the after-indices
/// of its added and common rows are `0..after_len`. So the script has every
/// row of either sequence once, in its own order, and its length is
/// `before_len` plus the number of added rows, and `after_len` plus the
/// number of removed rows.
pub proof fn lemma_reconstruction(eq: spec_fn(int, int) -> bool, after_len: int, before_len: int)
    requires
        0 <= after_len <= usize::MAX,
        0 <= before_len <= usize::MAX,
    ensures
        before_indices(edit_script(eq, after_len, before_len)) == ascending(0, before_len),
        after_indices(edit_script(eq, after_len, before_len)) == ascending(0, after_len),
        count_removed(edit_script(eq, after_len, before_len)) + count_common(
            edit_script(eq, after_len, before_len),
        ) == before_len,
        count_added(edit_script(eq, after_len, before_len)) + count_common(
            edit_script(eq, after_len, before_len),
        ) == after_len,
        edit_script(eq, after_len, before_len).len() == before_len + count_added(
            edit_script(eq, after_len, before_len),
        ),
        edit_script(eq, after_len, before_len).len() == after_len + count_removed(
            edit_script(eq, after_len, before_len),
        ),
{
    lemma_trim_bounds(eq, after_len, before_len);
    let prefix = common_prefix_len(eq, after_len, before_len);
    let suffix = common_suffix_len(eq, after_len, before_len);
    let rows = after_len - prefix - suffix;
    let cols = before_len - prefix - suffix;
    let head = common_run(0, 0, prefix);
    let middle = backtrack(window(eq, prefix, rows, cols), rows, cols, 0, 0, prefix);
    let tail = common_run(before_len - suffix, after_len - suffix, suffix);
    lemma_common_run_readings(0, 0, prefix);
    lemma_backtrack_readings(window(eq, prefix, rows, cols), rows, cols, 0, 0, prefix);
    lemma_common_run_readings(before_len - suffix, after_len - suffix, suffix);
    lemma_readings_concat(head, middle);
    lemma_readings_concat(head + middle, tail);
    lemma_counts(edit_script(eq, after_len, before_len));
}

/// Optimality: an edit script has as many common rows as its common prefix
/// and suffix hold, and the longest common subsequence of what lies between
/// them: the first cell of the table that is built over that middle.
pub proof fn lemma_common_count(eq: spec_fn(int, int) -> bool, after_len: int, before_len: int)
    requires
        0 <= after_len <= usize::MAX,
        0 <= before_len <= usize::MAX,
    ensures
        ({
            let prefix = common_prefix_len(eq, after_len, before_len);
            let suffix = common_suffix_len(eq, after_len, before_len);
            let rows = after_len - prefix - suffix;
            let cols = before_len - prefix - suffix;
            count_common(edit_script(eq, after_len, before_len)) == prefix + lcs_len(
                window(eq, prefix, rows, cols),
                rows,
                cols,
                0,
                0,
            ) + suffix
        }),
{
    lemma_trim_bounds(eq, after_len, before_len);
    let prefix = common_prefix_len(eq, after_len, before_len);
    let suffix = common_suffix_len(eq, after_len, before_len);
    let rows = after_len - prefix - suffix;
    let cols = before_len - prefix - suffix;
    let head = common_run(0, 0, prefix);
    let middle = backtrack(window(eq, prefix, rows, cols), rows, cols, 0, 0, prefix);
    let tail = common_run(before_len - suffix, after_len - suffix, suffix);
    lemma_common_run_readings(0, 0, prefix);
    lemma_backtrack_readings(window(eq, prefix, rows, cols), rows, cols, 0, 0, prefix);
    lemma_common_run_readings(before_len - suffix, after_len - suffix, suffix);
    lemma_readings_concat(head, middle);
    lemma_readings_concat(head + middle, tail);
}

/// Where no after-row equals any before-row, no common subsequence has a row.
proof fn lemma_lcs_len_disjoint(eq: spec_fn(int, int) -> bool, after_len: int, before_len: int, i: int, j: int)
    requires
        0 <= i,
        0 <= j,
        forall|a: int, b: int| 0 <= a < after_len && 0 <= b < before_len ==> !#[trigger] eq(a, b),
    ensures
        lcs_len(eq, after_len, before_len, i, j) == 0,
    decreases after_len - i + before_len - j,
{
    if i < after_len && j < before_len {
        lemma_lcs_len_disjoint(eq, after_len, before_len, i + 1, j);
        lemma_lcs_len_disjoint(eq, after_len, before_len, i, j + 1);
    }
}

/// Disjoint sequences: where no row of `after` equals any row of `before`,
/// the edit script has every before-row as removed, every after-row as added,
/// and no common row.
pub proof fn lemma_disjoint(eq: spec_fn(int, int) -> bool, after_len: int, before_len: int)
    requires
        0 <= after_len <= usize::MAX,
        0 <= before_len <= usize::MAX,
        forall|i: int, j: int| 0 <= i < after_len && 0 <= j < before_len ==> !#[trigger] eq(i, j),
    ensures
        count_common(edit_script(eq, after_len, before_len)) == 0,
        count_removed(edit_script(eq, after_len, before_len)) == before_len,
        count_added(edit_script(eq, after_len, before_len)) == after_len,
{
    lemma_common_count(eq, after_len, before_len);
    lemma_lcs_len_disjoint(window(eq, 0, after_len, before_len), after_len, before_len, 0, 0);
    lemma_reconstruction(eq, after_len, before_len);
}

/// Rows that are equal index by index from `k` on run to the end of the
/// shorter sequence.
proof fn lemma_prefix_run_full(eq: spec_fn(int, int) -> bool, len: int, k: int)
    requires
        0 <= k <= len,
        forall|r: int| 0 <= r < len ==> #[trigger] eq(r, r),
    ensures
        prefix_run(eq, len, len, k) == len - k,
    decreases len - k,
{
    if k < len {
        lemma_prefix_run_full(eq, len, k + 1);
    }
}

/// Identity: the edit script of a sequence against itself has nothing but
/// common rows, one for each row, each with its own index on both sides.
/// All of the sequence is common prefix, so no table is needed for it,
/// however long it is.
pub proof fn lemma_identity(eq: spec_fn(int, int) -> bool, len: int)
    requires
        0 <= len,
        forall|r: int| 0 <= r < len ==> #[trigger] eq(r, r),
    ensures
        edit_script(eq, len, len) == common_run(0, 0, len),
        middle_fits(eq, len, len),
{
    lemma_prefix_run_full(eq, len, 0);
}

/// Every entry of an edit script names rows that the sequences have: a
/// before-index lies below `before_len`, an after-index below `after_len`.
pub proof fn lemma_rows_in_range(eq: spec_fn(int, int) -> bool, after_len: int, before_len: int, y: int)
    requires
        0 <= after_len <= usize::MAX,
        0 <= before_len <= usize::MAX,
        0 <= y < edit_script(eq, after_len, before_len).len(),
    ensures
        match edit_script(eq, after_len, before_len)[y] {
            DiffOp::Removed { before_index } => before_index < before_len,
            DiffOp::Common { before_index, after_index } => before_index < before_len && after_index
                < after_len,
            DiffOp::Added { after_index } => after_index < after_len,
        },
{
    let script = edit_script(eq, after_len, before_len);
    lemma_reconstruction(eq, after_len, before_len);
    lemma_row_is_read(script, y);
    if !(script[y] is Added) {
        let row = before_index_of(script[y])[0];
        assert(ascending(0, before_len)[ascending(0, before_len).index_of(row)] == row);
    }
    if !(script[y] is Removed) {
        let row = after_index_of(script[y])[0];
        assert(ascending(0, after_len)[ascending(0, after_len).index_of(row)] == row);
    }
}

/// The rows that the common prefix counts are equal index by index.
pub proof fn lemma_prefix_rows_equal(eq: spec_fn(int, int) -> bool, after_len: int, before_len: int, k: int, t: int)
    requires
        0 <= k <= t < k + prefix_run(eq, after_len, before_len, k),
    ensures
        eq(t, t),
    decreases after_len - k,
{
    if k < t {
        lemma_prefix_rows_equal(eq, after_len, before_len, k + 1, t);
    }
}

/// The rows that the common suffix counts are equal, pair by pair from the
/// two ends.
pub proof fn lemma_suffix_rows_equal(
    eq: spec_fn(int, int) -> bool,
    after_len: int,
    before_len: int,
    limit: int,
    k: int,
    t: int,
)
    requires
        0 <= k <= t < k + suffix_run(eq, after_len, before_len, limit, k),
    ensures
        eq(after_len - 1 - t, before_len - 1 - t),
        t < limit,
    decreases limit - k,
{
    if k < t {
        lemma_suffix_rows_equal(eq, after_len, before_len, limit, k + 1, t);
    }
}

/// A common row of the walk pairs two rows that are equal.
proof fn lemma_backtrack_pairs(
    eq: spec_fn(int, int) -> bool,
    after_len: int,
    before_len: int,
    i: int,
    j: int,
    offset: int,
    y: int,
)
    requires
        0 <= i <= after_len,
        0 <= j <= before_len,
        0 <= offset,
        after_len + offset <= usize::MAX,
        before_len + offset <= usize::MAX,
        0 <= y < backtrack(eq, after_len, before_len, i, j, offset).len(),
    ensures
        backtrack(eq, after_len, before_len, i, j, offset)[y] matches DiffOp::Common { before_index, after_index }
            ==> eq(after_index - offset, before_index - offset),
    decreases after_len - i + before_len - j,
{
    if i < after_len && j < before_len && y > 0 {
        if eq(i, j) {
            lemma_backtrack_pairs(eq, after_len, before_len, i + 1, j + 1, offset, y - 1);
        } else if lcs_len(eq, after_len, before_len, i + 1, j) >= lcs_len(eq, after_len, before_len, i, j + 1) {
            lemma_backtrack_pairs(eq, after_len, before_len, i + 1, j, offset, y - 1);
        } else {
            lemma_backtrack_pairs(eq, after_len, before_len, i, j + 1, offset, y - 1);
        }
    }
}

/// A common row of an edit script pairs two rows that are equal, so either
/// of them stands for it.
pub proof fn lemma_common_rows_equal(eq: spec_fn(int, int) -> bool, after_len: int, before_len: int, y: int)
    requires
        0 <= after_len <= usize::MAX,
        0 <= before_len <= usize::MAX,
        0 <= y < edit_script(eq, after_len, before_len).len(),
    ensures
        edit_script(eq, after_len, before_len)[y] matches DiffOp::Common { before_index, after_index } ==> eq(
            after_index as int,
            before_index as int,
        ),
{
    lemma_trim_bounds(eq, after_len, before_len);
    let prefix = common_prefix_len(eq, after_len, before_len);
    let suffix = common_suffix_len(eq, after_len, before_len);
    let rows = after_len - prefix - suffix;
    let cols = before_len - prefix - suffix;
    let middle = backtrack(window(eq, prefix, rows, cols), rows, cols, 0, 0, prefix);
    if y < prefix {
        lemma_prefix_rows_equal(eq, after_len, before_len, 0, y);
    } else if y < prefix + middle.len() {
        lemma_backtrack_pairs(window(eq, prefix, rows, cols), rows, cols, 0, 0, prefix, y - prefix);
    } else {
        let t = suffix - 1 - (y - prefix - middle.len());
        lemma_suffix_rows_equal(eq, after_len, before_len, shorter(after_len, before_len) - prefix, 0, t);
    }
}

/// No common subsequence is longer than the table says: where `picked_after`
/// and `picked_before` name as many rows from `i` and from `j` on, both in
/// ascending order and equal pair by pair, they name no more than
/// `lcs_len` at `(i, j)`.
pub proof fn lemma_lcs_len_longest(
    eq: spec_fn(int, int) -> bool,
    after_len: int,
    before_len: int,
    i: int,
    j: int,
    picked_after: Seq<int>,
    picked_before: Seq<int>,
)
    requires
        0 <= i <= after_len,
        0 <= j <= before_len,
        picked_after.len() == picked_before.len(),
        forall|k: int| 0 <= k < picked_after.len() ==> i <= #[trigger] picked_after[k] < after_len,
        forall|k: int| 0 <= k < picked_before.len() ==> j <= #[trigger] picked_before[k] < before_len,
        forall|k: int, l: int| 0 <= k < l < picked_after.len() ==> picked_after[k] < picked_after[l],
        forall|k: int, l: int| 0 <= k < l < picked_before.len() ==> picked_before[k] < picked_before[l],
        forall|k: int| 0 <= k < picked_after.len() ==> eq(#[trigger] picked_after[k], picked_before[k]),
    ensures
        picked_after.len() <= lcs_len(eq, after_len, before_len, i, j),
    decreases after_len - i + before_len - j,
{
    if picked_after.len() > 0 {
        let first_after = picked_after[0];
        let first_before = picked_before[0];
        lemma_lcs_len_step(eq, after_len, before_len, i, j);
        if first_after == i && first_before == j {
            let rest_after = picked_after.drop_first();
            let rest_before = picked_before.drop_first();
            lemma_lcs_len_longest(eq, after_len, before_len, i + 1, j + 1, rest_after, rest_before);
        } else if first_after > i {
            lemma_lcs_len_longest(eq, after_len, before_len, i + 1, j, picked_after, picked_before);
        } else {
            lemma_lcs_len_longest(eq, after_len, before_len, i, j + 1, picked_after, picked_before);
        }
    }
}

/// Read off the table of longest-common-subsequence lengths, the rows that
/// the walk keeps are as many as the longest common subsequence is long.
pub proof fn lemma_kept_rows_longest(eq: spec_fn(int, int) -> bool, after_len: int, before_len: int, i: int, j: int)
    requires
        0 <= i <= after_len,
        0 <= j <= before_len,
        after_len <= u32::MAX || before_len <= u32::MAX,
    ensures
        kept_rows(lcs_table(eq, after_len, before_len), eq, after_len, before_len, i, j).len() == lcs_len(
            eq,
            after_len,
            before_len,
            i,
            j,
        ),
    decreases after_len - i + before_len - j,
{
    if i < after_len && j < before_len {
        lemma_lcs_len_bound(eq, after_len, before_len, i + 1, j);
        lemma_lcs_len_bound(eq, after_len, before_len, i, j + 1);
        lemma_kept_rows_longest(eq, after_len, before_len, i + 1, j + 1);
        lemma_kept_rows_longest(eq, after_len, before_len, i + 1, j);
        lemma_kept_rows_longest(eq, after_len, before_len, i, j + 1);
    }
}

} // verus!
