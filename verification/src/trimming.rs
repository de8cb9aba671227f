//! When setting the common prefix and suffix aside leaves the edit script as
//! it would be without it, and when it does not.

use crate::edit::{
    align, backtrack, common_prefix_len, common_suffix_len, edit_script, lemma_prefix_run_bound,
    prefix_run, shorter, window,
};
use crate::laws::{lemma_common_count, lemma_suffix_rows_equal, lemma_trim_bounds};
use crate::ops::{added_run, common_run, count_common, removed_run, DiffOp};
use crate::table::{lcs_len, lemma_lcs_len_bound, lemma_lcs_len_step};
use vstd::prelude::*;

verus! {

/// The cell at which the walk from `(i, j)` has used up one of the sequences.
pub open spec fn walk_end(eq: spec_fn(int, int) -> bool, after_len: int, before_len: int, i: int, j: int) -> (
    int,
    int,
)
    decreases after_len - i + before_len - j,
{
    if i < 0 || j < 0 || i >= after_len || j >= before_len {
        (i, j)
    } else if eq(i, j) {
        walk_end(eq, after_len, before_len, i + 1, j + 1)
    } else if lcs_len(eq, after_len, before_len, i + 1, j) >= lcs_len(eq, after_len, before_len, i, j + 1) {
        walk_end(eq, after_len, before_len, i + 1, j)
    } else {
        walk_end(eq, after_len, before_len, i, j + 1)
    }
}

/// Whether after-row `i` equals one of the before-rows `from..to`.
pub open spec fn equals_some_before(eq: spec_fn(int, int) -> bool, i: int, from: int, to: int) -> bool {
    exists|j: int| from <= j < to && #[trigger] eq(i, j)
}

/// Whether before-row `j` equals one of the after-rows `from..to`.
pub open spec fn equals_some_after(eq: spec_fn(int, int) -> bool, j: int, from: int, to: int) -> bool {
    exists|i: int| from <= i < to && #[trigger] eq(i, j)
}

/// Whether a row that the walk through the middle leaves over, once it has
/// used up the middle of the other sequence, equals the first row of the
/// common suffix. Such a row is removed or added in the edit script, where
/// an alignment of the whole sequences would pair it with the suffix.
pub open spec fn leftover_equals_suffix_row(eq: spec_fn(int, int) -> bool, after_len: int, before_len: int) -> bool {
    let prefix = common_prefix_len(eq, after_len, before_len);
    let suffix = common_suffix_len(eq, after_len, before_len);
    let rows = after_len - prefix - suffix;
    let cols = before_len - prefix - suffix;
    let end = walk_end(window(eq, prefix, rows, cols), rows, cols, 0, 0);
    suffix > 0 && (equals_some_before(eq, after_len - suffix, end.1 + prefix, before_len - suffix)
        || equals_some_after(eq, before_len - suffix, end.0 + prefix, after_len - suffix))
}

/// What follows a shared start decides whether two sequences are equal.
proof fn lemma_cancel<A>(start: Seq<A>, x: Seq<A>, y: Seq<A>)
    ensures
        (start + x == start + y) <==> x == y,
{
    if start + x == start + y {
        assert(x =~= (start + x).subrange(start.len() as int, (start + x).len() as int));
        assert(y =~= (start + y).subrange(start.len() as int, (start + y).len() as int));
    }
}

/// The rows that the common prefix counts are equal index by index, so an
/// alignment of the whole sequences begins with them as common rows.
proof fn lemma_align_prefix(eq: spec_fn(int, int) -> bool, after_len: int, before_len: int, k: int)
    requires
        0 <= k,
    ensures
        backtrack(eq, after_len, before_len, k, k, 0) == common_run(
            k,
            k,
            prefix_run(eq, after_len, before_len, k),
        ) + backtrack(
            eq,
            after_len,
            before_len,
            k + prefix_run(eq, after_len, before_len, k),
            k + prefix_run(eq, after_len, before_len, k),
            0,
        ),
    decreases after_len - k,
{
    if k < after_len && k < before_len && eq(k, k) {
        lemma_align_prefix(eq, after_len, before_len, k + 1);
        lemma_prefix_run_bound(eq, after_len, before_len, k + 1);
    }
}

/// From the cell where the last `t` rows of both sequences begin, with those
/// rows equal pair by pair, the walk has `t` common rows and nothing else.
proof fn lemma_align_suffix(eq: spec_fn(int, int) -> bool, after_len: int, before_len: int, t: int)
    requires
        0 <= t <= shorter(after_len, before_len),
        forall|k: int| 0 <= k < t ==> #[trigger] eq(after_len - 1 - k, before_len - 1 - k),
    ensures
        lcs_len(eq, after_len, before_len, after_len - t, before_len - t) == t,
        backtrack(eq, after_len, before_len, after_len - t, before_len - t, 0) == common_run(
            before_len - t,
            after_len - t,
            t,
        ),
    decreases t,
{
    if t > 0 {
        lemma_align_suffix(eq, after_len, before_len, t - 1);
        assert(eq(after_len - 1 - (t - 1), before_len - 1 - (t - 1)));
    }
}

/// Against the last `t` after-rows, all of them equal to the last `t`
/// before-rows pair by pair, every stretch of before-rows that holds those
/// `t` has a longest common subsequence of `t` rows; and the same with the
/// two sequences exchanged.
proof fn lemma_lcs_len_edge(eq: spec_fn(int, int) -> bool, after_len: int, before_len: int, t: int, k: int)
    requires
        0 <= t <= shorter(after_len, before_len),
        forall|r: int| 0 <= r < t ==> #[trigger] eq(after_len - 1 - r, before_len - 1 - r),
        0 <= k,
    ensures
        k <= before_len - t ==> lcs_len(eq, after_len, before_len, after_len - t, k) == t,
        k <= after_len - t ==> lcs_len(eq, after_len, before_len, k, before_len - t) == t,
    decreases after_len + before_len - k,
{
    lemma_align_suffix(eq, after_len, before_len, t);
    if k < before_len - t {
        lemma_lcs_len_edge(eq, after_len, before_len, t, k + 1);
        lemma_lcs_len_step(eq, after_len, before_len, after_len - t, k);
        lemma_lcs_len_bound(eq, after_len, before_len, after_len - t, k);
    }
    if k < after_len - t {
        lemma_lcs_len_edge(eq, after_len, before_len, t, k + 1);
        lemma_lcs_len_step(eq, after_len, before_len, k, before_len - t);
        lemma_lcs_len_bound(eq, after_len, before_len, k, before_len - t);
    }
}

/// Within the middle, a cell of the table over the whole sequences exceeds
/// the cell of the table over the middle by the length of the common suffix.
proof fn lemma_lcs_len_window(
    eq: spec_fn(int, int) -> bool,
    after_len: int,
    before_len: int,
    prefix: int,
    suffix: int,
    a: int,
    b: int,
)
    requires
        0 <= prefix,
        0 <= suffix,
        prefix + suffix <= shorter(after_len, before_len),
        forall|r: int| 0 <= r < suffix ==> #[trigger] eq(after_len - 1 - r, before_len - 1 - r),
        0 <= a <= after_len - prefix - suffix,
        0 <= b <= before_len - prefix - suffix,
    ensures
        lcs_len(eq, after_len, before_len, a + prefix, b + prefix) == lcs_len(
            window(eq, prefix, after_len - prefix - suffix, before_len - prefix - suffix),
            after_len - prefix - suffix,
            before_len - prefix - suffix,
            a,
            b,
        ) + suffix,
    decreases after_len - a + before_len - b,
{
    let rows = after_len - prefix - suffix;
    let cols = before_len - prefix - suffix;
    if a == rows {
        lemma_lcs_len_edge(eq, after_len, before_len, suffix, b + prefix);
    } else if b == cols {
        lemma_lcs_len_edge(eq, after_len, before_len, suffix, a + prefix);
    } else {
        lemma_lcs_len_window(eq, after_len, before_len, prefix, suffix, a + 1, b + 1);
        lemma_lcs_len_window(eq, after_len, before_len, prefix, suffix, a + 1, b);
        lemma_lcs_len_window(eq, after_len, before_len, prefix, suffix, a, b + 1);
    }
}

/// Once the walk over the whole sequences stands at the first after-row of
/// the common suffix with before-rows of the middle still ahead, it removes
/// those and then pairs the suffix, unless one of them equals that after-row.
proof fn lemma_leftover_before(eq: spec_fn(int, int) -> bool, after_len: int, before_len: int, suffix: int, j: int)
    requires
        0 <= suffix <= shorter(after_len, before_len),
        forall|r: int| 0 <= r < suffix ==> #[trigger] eq(after_len - 1 - r, before_len - 1 - r),
        0 <= j <= before_len - suffix,
    ensures
        (backtrack(eq, after_len, before_len, after_len - suffix, j, 0) == removed_run(j, before_len - suffix)
            + common_run(before_len - suffix, after_len - suffix, suffix)) <==> !(suffix > 0
            && equals_some_before(eq, after_len - suffix, j, before_len - suffix)),
    decreases before_len - suffix - j,
{
    let walk = backtrack(eq, after_len, before_len, after_len - suffix, j, 0);
    let pairs = common_run(before_len - suffix, after_len - suffix, suffix);
    let script = removed_run(j, before_len - suffix) + pairs;
    if j == before_len - suffix {
        lemma_align_suffix(eq, after_len, before_len, suffix);
    } else if suffix > 0 && eq(after_len - suffix, j) {
        // The walk pairs the two rows, where the script removes the before-row.
        assert(walk[0] is Common);
        assert(script[0] is Removed);
    } else if suffix > 0 {
        // The suffix is longer by its first row than what follows that row,
        // so the walk removes the before-row as the script does.
        lemma_lcs_len_edge(eq, after_len, before_len, suffix - 1, j);
        lemma_lcs_len_edge(eq, after_len, before_len, suffix, j + 1);
        let head = seq![DiffOp::Removed { before_index: j as usize }];
        let rest = removed_run(j + 1, before_len - suffix) + pairs;
        assert(script =~= head + rest);
        lemma_leftover_before(eq, after_len, before_len, suffix, j + 1);
        lemma_cancel(head, backtrack(eq, after_len, before_len, after_len - suffix, j + 1, 0), rest);
    }
}

/// Once the walk over the whole sequences stands at the first before-row of
/// the common suffix with after-rows of the middle still ahead, it adds those
/// and then pairs the suffix, unless one of them equals that before-row.
proof fn lemma_leftover_after(eq: spec_fn(int, int) -> bool, after_len: int, before_len: int, suffix: int, i: int)
    requires
        0 <= suffix <= shorter(after_len, before_len),
        forall|r: int| 0 <= r < suffix ==> #[trigger] eq(after_len - 1 - r, before_len - 1 - r),
        0 <= i <= after_len - suffix,
    ensures
        (backtrack(eq, after_len, before_len, i, before_len - suffix, 0) == added_run(i, after_len - suffix)
            + common_run(before_len - suffix, after_len - suffix, suffix)) <==> !(suffix > 0
            && equals_some_after(eq, before_len - suffix, i, after_len - suffix)),
    decreases after_len - suffix - i,
{
    let walk = backtrack(eq, after_len, before_len, i, before_len - suffix, 0);
    let pairs = common_run(before_len - suffix, after_len - suffix, suffix);
    let script = added_run(i, after_len - suffix) + pairs;
    if i == after_len - suffix {
        lemma_align_suffix(eq, after_len, before_len, suffix);
    } else if suffix > 0 && eq(i, before_len - suffix) {
        // The walk pairs the two rows, where the script adds the after-row.
        assert(walk[0] is Common);
        assert(script[0] is Added);
    } else if suffix > 0 {
        // The suffix is no shorter than what follows its first row, so the
        // walk adds the after-row as the script does.
        lemma_lcs_len_edge(eq, after_len, before_len, suffix - 1, i);
        lemma_lcs_len_edge(eq, after_len, before_len, suffix, i + 1);
        let head = seq![DiffOp::Added { after_index: i as usize }];
        let rest = added_run(i + 1, after_len - suffix) + pairs;
        assert(script =~= head + rest);
        lemma_leftover_after(eq, after_len, before_len, suffix, i + 1);
        lemma_cancel(head, backtrack(eq, after_len, before_len, i + 1, before_len - suffix, 0), rest);
    }
}

/// From a cell of the middle on, the walk over the whole sequences and the
/// walk over the middle followed by the common suffix give the same rows
/// unless a leftover row equals the first row of the suffix.
proof fn lemma_walks_agree(
    eq: spec_fn(int, int) -> bool,
    after_len: int,
    before_len: int,
    prefix: int,
    suffix: int,
    a: int,
    b: int,
)
    requires
        0 <= prefix,
        0 <= suffix,
        prefix + suffix <= shorter(after_len, before_len),
        forall|r: int| 0 <= r < suffix ==> #[trigger] eq(after_len - 1 - r, before_len - 1 - r),
        0 <= a <= after_len - prefix - suffix,
        0 <= b <= before_len - prefix - suffix,
    ensures
        ({
            let rows = after_len - prefix - suffix;
            let cols = before_len - prefix - suffix;
            let middle = window(eq, prefix, rows, cols);
            let end = walk_end(middle, rows, cols, a, b);
            (backtrack(eq, after_len, before_len, a + prefix, b + prefix, 0) == backtrack(
                middle,
                rows,
                cols,
                a,
                b,
                prefix,
            ) + common_run(before_len - suffix, after_len - suffix, suffix)) <==> !(suffix > 0 && (
            equals_some_before(eq, after_len - suffix, end.1 + prefix, before_len - suffix)
                || equals_some_after(eq, before_len - suffix, end.0 + prefix, after_len - suffix)))
        }),
    decreases after_len - a + before_len - b,
{
    let rows = after_len - prefix - suffix;
    let cols = before_len - prefix - suffix;
    let middle = window(eq, prefix, rows, cols);
    let pairs = common_run(before_len - suffix, after_len - suffix, suffix);
    let whole = backtrack(eq, after_len, before_len, a + prefix, b + prefix, 0);
    let trimmed = backtrack(middle, rows, cols, a, b, prefix) + pairs;
    if a == rows {
        lemma_leftover_before(eq, after_len, before_len, suffix, b + prefix);
    } else if b == cols {
        lemma_leftover_after(eq, after_len, before_len, suffix, a + prefix);
    } else {
        lemma_lcs_len_window(eq, after_len, before_len, prefix, suffix, a + 1, b);
        lemma_lcs_len_window(eq, after_len, before_len, prefix, suffix, a, b + 1);
        let next: (int, int) = if middle(a, b) {
            (a + 1, b + 1)
        } else if lcs_len(middle, rows, cols, a + 1, b) >= lcs_len(middle, rows, cols, a, b + 1) {
            (a + 1, b)
        } else {
            (a, b + 1)
        };
        let head = seq![whole[0]];
        let whole_rest = backtrack(eq, after_len, before_len, next.0 + prefix, next.1 + prefix, 0);
        let trimmed_rest = backtrack(middle, rows, cols, next.0, next.1, prefix) + pairs;
        assert(trimmed =~= head + trimmed_rest);
        lemma_walks_agree(eq, after_len, before_len, prefix, suffix, next.0, next.1);
        lemma_cancel(head, whole_rest, trimmed_rest);
    }
}

/// Trim equivalence: the edit script, which sets the common prefix and
/// suffix aside and aligns only what lies between them, is the alignment of
/// the whole sequences, unless a row that the walk through the middle leaves
/// over equals the first row of the common suffix; then the two differ.
pub proof fn lemma_trim_equivalence(eq: spec_fn(int, int) -> bool, after_len: int, before_len: int)
    requires
        0 <= after_len,
        0 <= before_len,
    ensures
        edit_script(eq, after_len, before_len) == align(eq, after_len, before_len)
            <==> !leftover_equals_suffix_row(eq, after_len, before_len),
{
    lemma_trim_bounds(eq, after_len, before_len);
    let prefix = common_prefix_len(eq, after_len, before_len);
    let suffix = common_suffix_len(eq, after_len, before_len);
    let rows = after_len - prefix - suffix;
    let cols = before_len - prefix - suffix;
    let limit = shorter(after_len, before_len) - prefix;
    assert forall|r: int| 0 <= r < suffix implies #[trigger] eq(after_len - 1 - r, before_len - 1 - r) by {
        lemma_suffix_rows_equal(eq, after_len, before_len, limit, 0, r);
    }
    let start = common_run(0, 0, prefix);
    let whole = backtrack(eq, after_len, before_len, prefix, prefix, 0);
    let trimmed = backtrack(window(eq, prefix, rows, cols), rows, cols, 0, 0, prefix) + common_run(
        before_len - suffix,
        after_len - suffix,
        suffix,
    );
    lemma_align_prefix(eq, after_len, before_len, 0);
    lemma_walks_agree(eq, after_len, before_len, prefix, suffix, 0, 0);
    assert(edit_script(eq, after_len, before_len) =~= start + trimmed);
    lemma_cancel(start, whole, trimmed);
}

/// From a cell on the diagonal, the longest common subsequence has the rows
/// that are equal index by index from there on, and then the longest one of
/// what follows them.
proof fn lemma_lcs_len_prefix(eq: spec_fn(int, int) -> bool, after_len: int, before_len: int, k: int)
    requires
        0 <= k,
    ensures
        lcs_len(eq, after_len, before_len, k, k) == prefix_run(eq, after_len, before_len, k) + lcs_len(
            eq,
            after_len,
            before_len,
            k + prefix_run(eq, after_len, before_len, k),
            k + prefix_run(eq, after_len, before_len, k),
        ),
    decreases after_len - k,
{
    if k < after_len && k < before_len && eq(k, k) {
        lemma_lcs_len_prefix(eq, after_len, before_len, k + 1);
    }
}

/// Optimality over the whole sequences: whether or not setting the common
/// ends aside changes the edit script, it has as many common rows as the
/// longest common subsequence of the two whole sequences is long.
pub proof fn lemma_common_count_whole(eq: spec_fn(int, int) -> bool, after_len: int, before_len: int)
    requires
        0 <= after_len <= usize::MAX,
        0 <= before_len <= usize::MAX,
    ensures
        count_common(edit_script(eq, after_len, before_len)) == lcs_len(eq, after_len, before_len, 0, 0),
{
    lemma_trim_bounds(eq, after_len, before_len);
    let prefix = common_prefix_len(eq, after_len, before_len);
    let suffix = common_suffix_len(eq, after_len, before_len);
    let limit = shorter(after_len, before_len) - prefix;
    assert forall|r: int| 0 <= r < suffix implies #[trigger] eq(after_len - 1 - r, before_len - 1 - r) by {
        lemma_suffix_rows_equal(eq, after_len, before_len, limit, 0, r);
    }
    lemma_common_count(eq, after_len, before_len);
    lemma_lcs_len_prefix(eq, after_len, before_len, 0);
    lemma_lcs_len_window(eq, after_len, before_len, prefix, suffix, 0, 0);
}

} // verus!
