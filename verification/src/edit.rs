//! The edit script: the rows of two sequences in one order, each marked as
//! removed, common or added.

use crate::ops::{
    added_run, after_indices, ascending, before_indices, common_run, lemma_added_run_readings,
    lemma_common_run_readings, lemma_readings_concat, lemma_readings_push, lemma_removed_run_readings,
    removed_run, DiffOp,
};
use crate::table::{
    create_table, fits_table, lcs_len, lcs_table, lemma_lcs_len_bound, row_matches, table_shaped,
};
use vstd::prelude::*;
use vstd::slice::slice_subrange;
use vstd::std_specs::cmp::PartialEqSpec;

verus! {

/// The walk through the table from cell `(i, j)`: a common row where the two
/// rows are equal; otherwise an added row if skipping the after-row loses
/// nothing against skipping the before-row, else a removed row. Once one
/// sequence is used up, what is left of the after-rows is added and what is
/// left of the before-rows is removed. Every index is moved up by `offset`.
pub open spec fn backtrack(
    eq: spec_fn(int, int) -> bool,
    after_len: int,
    before_len: int,
    i: int,
    j: int,
    offset: int,
) -> Seq<DiffOp>
    decreases after_len - i + before_len - j,
{
    if i < 0 || j < 0 || i >= after_len || j >= before_len {
        added_run(i + offset, after_len + offset) + removed_run(j + offset, before_len + offset)
    } else if eq(i, j) {
        seq![DiffOp::Common { before_index: (j + offset) as usize, after_index: (i + offset) as usize }]
            + backtrack(eq, after_len, before_len, i + 1, j + 1, offset)
    } else if lcs_len(eq, after_len, before_len, i + 1, j) >= lcs_len(eq, after_len, before_len, i, j + 1) {
        seq![DiffOp::Added { after_index: (i + offset) as usize }] + backtrack(
            eq,
            after_len,
            before_len,
            i + 1,
            j,
            offset,
        )
    } else {
        seq![DiffOp::Removed { before_index: (j + offset) as usize }] + backtrack(
            eq,
            after_len,
            before_len,
            i,
            j + 1,
            offset,
        )
    }
}

/// The alignment of the two whole sequences, with no row set aside.
pub open spec fn align(eq: spec_fn(int, int) -> bool, after_len: int, before_len: int) -> Seq<DiffOp> {
    backtrack(eq, after_len, before_len, 0, 0, 0)
}

/// How many rows from `k` on are equal index by index, up to the end of the
/// shorter sequence.
pub open spec fn prefix_run(eq: spec_fn(int, int) -> bool, after_len: int, before_len: int, k: int) -> int
    decreases after_len - k,
{
    if 0 <= k < after_len && k < before_len && eq(k, k) {
        1 + prefix_run(eq, after_len, before_len, k + 1)
    } else {
        0
    }
}

/// How many rows are equal counted from the two ends, once `k` such rows are
/// known, among at most `limit` rows.
pub open spec fn suffix_run(
    eq: spec_fn(int, int) -> bool,
    after_len: int,
    before_len: int,
    limit: int,
    k: int,
) -> int
    decreases limit - k,
{
    if 0 <= k < limit && eq(after_len - 1 - k, before_len - 1 - k) {
        1 + suffix_run(eq, after_len, before_len, limit, k + 1)
    } else {
        0
    }
}

/// The length of the shorter of two sequences.
pub open spec fn shorter(after_len: int, before_len: int) -> int {
    if after_len <= before_len {
        after_len
    } else {
        before_len
    }
}

/// Length of the longest common prefix of the two sequences.
pub open spec fn common_prefix_len(eq: spec_fn(int, int) -> bool, after_len: int, before_len: int) -> int {
    prefix_run(eq, after_len, before_len, 0)
}

/// Length of the longest common suffix of what the common prefix leaves of
/// the two sequences.
pub open spec fn common_suffix_len(eq: spec_fn(int, int) -> bool, after_len: int, before_len: int) -> int {
    suffix_run(
        eq,
        after_len,
        before_len,
        shorter(after_len, before_len) - common_prefix_len(eq, after_len, before_len),
        0,
    )
}

/// The relation `eq` on the `rows` by `cols` rows that start at `start` in
/// both sequences, indexed from zero.
pub open spec fn window(eq: spec_fn(int, int) -> bool, start: int, rows: int, cols: int) -> spec_fn(
    int,
    int,
) -> bool {
    |i: int, j: int| 0 <= i < rows && 0 <= j < cols && eq(i + start, j + start)
}

/// The edit script of two sequences: their common prefix, the walk through
/// the table of what lies between prefix and suffix, and their common suffix.
pub open spec fn edit_script(eq: spec_fn(int, int) -> bool, after_len: int, before_len: int) -> Seq<DiffOp> {
    let prefix = common_prefix_len(eq, after_len, before_len);
    let suffix = common_suffix_len(eq, after_len, before_len);
    let rows = after_len - prefix - suffix;
    let cols = before_len - prefix - suffix;
    common_run(0, 0, prefix) + backtrack(window(eq, prefix, rows, cols), rows, cols, 0, 0, prefix)
        + common_run(before_len - suffix, after_len - suffix, suffix)
}

/// The rows that are equal index by index from `k` on are no more than the
/// shorter sequence has from there.
pub proof fn lemma_prefix_run_bound(eq: spec_fn(int, int) -> bool, after_len: int, before_len: int, k: int)
    requires
        0 <= k <= shorter(after_len, before_len),
    ensures
        0 <= prefix_run(eq, after_len, before_len, k) <= shorter(after_len, before_len) - k,
    decreases after_len - k,
{
    if k < after_len && k < before_len && eq(k, k) {
        lemma_prefix_run_bound(eq, after_len, before_len, k + 1);
    }
}

/// The rows that are equal from the two ends, beyond the first `k` of them,
/// are no more than `limit` allows.
pub proof fn lemma_suffix_run_bound(
    eq: spec_fn(int, int) -> bool,
    after_len: int,
    before_len: int,
    limit: int,
    k: int,
)
    requires
        0 <= k <= limit,
    ensures
        0 <= suffix_run(eq, after_len, before_len, limit, k) <= limit - k,
    decreases limit - k,
{
    if k < limit && eq(after_len - 1 - k, before_len - 1 - k) {
        lemma_suffix_run_bound(eq, after_len, before_len, limit, k + 1);
    }
}

/// Counts the rows that the two sequences have in common at their start.
pub fn common_prefix<T: PartialEq>(before: &[T], after: &[T]) -> (prefix: usize)
    ensures
        prefix <= before.len(),
        prefix <= after.len(),
        T::obeys_eq_spec() ==> prefix == common_prefix_len(
            row_matches(before@, after@),
            after.len() as int,
            before.len() as int,
        ),
{
    let limit = if after.len() <= before.len() {
        after.len()
    } else {
        before.len()
    };
    let ghost eq = row_matches(before@, after@);
    let ghost rows = after.len() as int;
    let ghost cols = before.len() as int;
    let mut prefix: usize = 0;
    while prefix < limit
        invariant
            prefix <= limit,
            limit == shorter(rows, cols),
            rows == after.len(),
            cols == before.len(),
            eq == row_matches(before@, after@),
            T::obeys_eq_spec() ==> common_prefix_len(eq, rows, cols) == prefix + prefix_run(
                eq,
                rows,
                cols,
                prefix as int,
            ),
        ensures
            prefix <= limit,
            T::obeys_eq_spec() ==> common_prefix_len(eq, rows, cols) == prefix,
        decreases limit - prefix,
    {
        if !(after[prefix] == before[prefix]) {
            break;
        }
        prefix += 1;
    }
    prefix
}

/// Counts the rows that the two sequences have in common at their end, not
/// counting any of their first `prefix` rows.
pub fn common_suffix<T: PartialEq>(before: &[T], after: &[T], prefix: usize) -> (suffix: usize)
    requires
        prefix <= before.len(),
        prefix <= after.len(),
    ensures
        prefix + suffix <= before.len(),
        prefix + suffix <= after.len(),
        T::obeys_eq_spec() ==> suffix == suffix_run(
            row_matches(before@, after@),
            after.len() as int,
            before.len() as int,
            shorter(after.len() as int, before.len() as int) - prefix,
            0,
        ),
{
    let after_len = after.len();
    let before_len = before.len();
    let limit = if after_len <= before_len {
        after_len - prefix
    } else {
        before_len - prefix
    };
    let ghost eq = row_matches(before@, after@);
    let mut suffix: usize = 0;
    while suffix < limit
        invariant
            suffix <= limit,
            limit == shorter(after_len as int, before_len as int) - prefix,
            after_len == after.len(),
            before_len == before.len(),
            eq == row_matches(before@, after@),
            T::obeys_eq_spec() ==> suffix_run(eq, after_len as int, before_len as int, limit as int, 0)
                == suffix + suffix_run(eq, after_len as int, before_len as int, limit as int, suffix as int),
        ensures
            suffix <= limit,
            T::obeys_eq_spec() ==> suffix_run(eq, after_len as int, before_len as int, limit as int, 0)
                == suffix,
        decreases limit - suffix,
    {
        if !(after[after_len - 1 - suffix] == before[before_len - 1 - suffix]) {
            break;
        }
        suffix += 1;
    }
    suffix
}

/// Whether `ops` names the first `before_count` rows of one sequence and
/// the first `after_count` rows of the other, each once and in order.
spec fn names_rows(ops: Seq<DiffOp>, before_count: int, after_count: int) -> bool {
    &&& before_indices(ops) == ascending(0, before_count)
    &&& after_indices(ops) == ascending(0, after_count)
}

/// A script that names the first rows of both sequences names one row more
/// once the entry of that row is added to it.
proof fn lemma_names_next(ops: Seq<DiffOp>, before_count: int, after_count: int, next: DiffOp)
    requires
        names_rows(ops, before_count, after_count),
        0 <= before_count < usize::MAX,
        0 <= after_count < usize::MAX,
        next == (DiffOp::Removed { before_index: before_count as usize }) || next == (DiffOp::Added {
            after_index: after_count as usize,
        }) || next == (DiffOp::Common {
            before_index: before_count as usize,
            after_index: after_count as usize,
        }),
    ensures
        names_rows(
            ops.push(next),
            if next is Added {
                before_count
            } else {
                before_count + 1
            },
            if next is Removed {
                after_count
            } else {
                after_count + 1
            },
        ),
{
    lemma_readings_push(ops, next);
    assert(ascending(0, before_count) + seq![before_count] =~= ascending(0, before_count + 1));
    assert(ascending(0, after_count) + seq![after_count] =~= ascending(0, after_count + 1));
    assert(ascending(0, before_count) + Seq::empty() =~= ascending(0, before_count));
    assert(ascending(0, after_count) + Seq::empty() =~= ascending(0, after_count));
}

/// Appends `Removed` for the before-rows `from..to`.
fn push_removed(ops: &mut Vec<DiffOp>, from: usize, to: usize, Ghost(after_count): Ghost<int>)
    requires
        from <= to,
        names_rows(old(ops)@, from as int, after_count),
    ensures
        final(ops)@ == old(ops)@ + removed_run(from as int, to as int),
        names_rows(final(ops)@, to as int, after_count),
{
    let ghost start = ops@;
    let mut k: usize = from;
    while k < to
        invariant
            from <= k <= to,
            ops@ == start + removed_run(from as int, k as int),
        decreases to - k,
    {
        ops.push(DiffOp::Removed { before_index: k });
        k += 1;
    }
    proof {
        lemma_removed_run_readings(from as int, to as int);
        lemma_readings_concat(start, removed_run(from as int, to as int));
        assert(ascending(0, from as int) + ascending(from as int, to as int) =~= ascending(0, to as int));
        assert(ascending(0, after_count) + Seq::empty() =~= ascending(0, after_count));
    }
}

/// Appends `Added` for the after-rows `from..to`.
fn push_added(ops: &mut Vec<DiffOp>, from: usize, to: usize, Ghost(before_count): Ghost<int>)
    requires
        from <= to,
        names_rows(old(ops)@, before_count, from as int),
    ensures
        final(ops)@ == old(ops)@ + added_run(from as int, to as int),
        names_rows(final(ops)@, before_count, to as int),
{
    let ghost start = ops@;
    let mut k: usize = from;
    while k < to
        invariant
            from <= k <= to,
            ops@ == start + added_run(from as int, k as int),
        decreases to - k,
    {
        ops.push(DiffOp::Added { after_index: k });
        k += 1;
    }
    proof {
        lemma_added_run_readings(from as int, to as int);
        lemma_readings_concat(start, added_run(from as int, to as int));
        assert(ascending(0, from as int) + ascending(from as int, to as int) =~= ascending(0, to as int));
        assert(ascending(0, before_count) + Seq::empty() =~= ascending(0, before_count));
    }
}

/// Appends `Common` for `count` rows from `before_from` and `after_from` on.
fn push_common(ops: &mut Vec<DiffOp>, before_from: usize, after_from: usize, count: usize)
    requires
        before_from + count <= usize::MAX,
        after_from + count <= usize::MAX,
        names_rows(old(ops)@, before_from as int, after_from as int),
    ensures
        final(ops)@ == old(ops)@ + common_run(before_from as int, after_from as int, count as int),
        names_rows(final(ops)@, before_from + count, after_from + count),
{
    let ghost start = ops@;
    let mut k: usize = 0;
    while k < count
        invariant
            k <= count,
            before_from + count <= usize::MAX,
            after_from + count <= usize::MAX,
            ops@ == start + common_run(before_from as int, after_from as int, k as int),
        decreases count - k,
    {
        ops.push(DiffOp::Common { before_index: before_from + k, after_index: after_from + k });
        k += 1;
    }
    proof {
        lemma_common_run_readings(before_from as int, after_from as int, count as int);
        lemma_readings_concat(start, common_run(before_from as int, after_from as int, count as int));
        assert(ascending(0, before_from as int) + ascending(before_from as int, before_from + count)
            =~= ascending(0, before_from + count));
        assert(ascending(0, after_from as int) + ascending(after_from as int, after_from + count) =~= ascending(
            0,
            after_from + count,
        ));
    }
}

/// Whether the table of what lies between the common prefix and the common
/// suffix of two sequences can be held.
pub open spec fn middle_fits(eq: spec_fn(int, int) -> bool, after_len: int, before_len: int) -> bool {
    let prefix = common_prefix_len(eq, after_len, before_len);
    let suffix = common_suffix_len(eq, after_len, before_len);
    fits_table(after_len - prefix - suffix, before_len - prefix - suffix)
}

/// Computes the edit script that turns `before` into `after`: the rows of
/// both in one order, each removed, common or added. Rows that the two
/// sequences share at their start and at their end are set aside first, and
/// only what lies between is aligned through the table, which has to fit.
///
/// Whatever `==` answers on `T`, the script names every row of `before` and
/// every row of `after` once, each sequence in its own order.
pub fn lcs_diff<T: PartialEq>(before: &[T], after: &[T]) -> (ops: Vec<DiffOp>)
    requires
        fits_table(after.len() as int, before.len() as int) || after.len() == 0 || before.len() == 0 || (
        T::obeys_eq_spec() && middle_fits(row_matches(before@, after@), after.len() as int, before.len() as int)),
    ensures
        T::obeys_eq_spec() ==> ops@ == edit_script(
            row_matches(before@, after@),
            after.len() as int,
            before.len() as int,
        ),
        before_indices(ops@) == ascending(0, before.len() as int),
        after_indices(ops@) == ascending(0, after.len() as int),
{
    let after_len = after.len();
    let before_len = before.len();
    let ghost eq = row_matches(before@, after@);
    let mut result: Vec<DiffOp> = Vec::new();
    proof {
        assert(before_indices(result@) =~= ascending(0, 0));
        assert(after_indices(result@) =~= ascending(0, 0));
    }
    if after_len == 0 {
        push_removed(&mut result, 0, before_len, Ghost(0));
        proof {
            assert(result@ =~= edit_script(eq, 0, before_len as int));
        }
        return result;
    } else if before_len == 0 {
        push_added(&mut result, 0, after_len, Ghost(0));
        proof {
            assert(result@ =~= edit_script(eq, after_len as int, 0));
        }
        return result;
    }
    let prefix = common_prefix(before, after);
    let suffix = common_suffix(before, after, prefix);
    let mid_before = slice_subrange(before, prefix, before_len - suffix);
    let mid_after = slice_subrange(after, prefix, after_len - suffix);
    let table = create_table(mid_before, mid_after);
    let rows = after_len - prefix - suffix;
    let cols = before_len - prefix - suffix;
    let ghost mid = window(eq, prefix as int, rows as int, cols as int);
    proof {
        assert(row_matches(mid_before@, mid_after@) =~= mid);
    }
    push_common(&mut result, 0, 0, prefix);
    let ghost target = common_run(0, 0, prefix as int) + backtrack(
        mid,
        rows as int,
        cols as int,
        0,
        0,
        prefix as int,
    );
    let mut n: usize = 0;
    let mut o: usize = 0;
    while n < rows && o < cols
        invariant
            n <= rows,
            o <= cols,
            rows == after_len - prefix - suffix,
            cols == before_len - prefix - suffix,
            after_len == after.len(),
            before_len == before.len(),
            eq == row_matches(before@, after@),
            mid == window(eq, prefix as int, rows as int, cols as int),
            rows <= u32::MAX || cols <= u32::MAX,
            table_shaped(table@, rows as int, cols as int),
            names_rows(result@, o + prefix, n + prefix),
            T::obeys_eq_spec() ==> table.deep_view() == lcs_table(mid, rows as int, cols as int),
            T::obeys_eq_spec() ==> result@ + backtrack(
                mid,
                rows as int,
                cols as int,
                n as int,
                o as int,
                prefix as int,
            ) == target,
        decreases rows - n + cols - o,
    {
        let after_index = n + prefix;
        let before_index = o + prefix;
        let ghost rest = backtrack(mid, rows as int, cols as int, n as int, o as int, prefix as int);
        let ghost emitted = result@;
        proof {
            if T::obeys_eq_spec() {
                lemma_lcs_len_bound(mid, rows as int, cols as int, n + 1, o as int);
                lemma_lcs_len_bound(mid, rows as int, cols as int, n as int, o + 1);
                assert(table@[n + 1][o as int] == table.deep_view()[n + 1][o as int]);
                assert(table@[n as int][o + 1] == table.deep_view()[n as int][o + 1]);
            }
        }
        if after[after_index] == before[before_index] {
            result.push(DiffOp::Common { before_index, after_index });
            n += 1;
            o += 1;
        } else if table[n + 1][o] >= table[n][o + 1] {
            result.push(DiffOp::Added { after_index });
            n += 1;
        } else {
            result.push(DiffOp::Removed { before_index });
            o += 1;
        }
        proof {
            lemma_names_next(emitted, before_index as int, after_index as int, result@.last());
            if T::obeys_eq_spec() {
                let next = backtrack(mid, rows as int, cols as int, n as int, o as int, prefix as int);
                assert(rest == seq![result@.last()] + next);
                assert(result@ + next =~= emitted + rest);
            }
        }
    }
    let ghost walked = result@;
    push_added(&mut result, n + prefix, rows + prefix, Ghost(o + prefix));
    push_removed(&mut result, o + prefix, cols + prefix, Ghost(rows + prefix));
    proof {
        if T::obeys_eq_spec() {
            assert(result@ =~= walked + backtrack(
                mid,
                rows as int,
                cols as int,
                n as int,
                o as int,
                prefix as int,
            ));
        }
    }
    push_common(&mut result, cols + prefix, rows + prefix, suffix);
    result
}

} // verus!
