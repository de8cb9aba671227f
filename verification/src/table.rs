//! The table of longest-common-subsequence lengths over two row sequences.

use vstd::prelude::*;
use vstd::std_specs::cmp::PartialEqSpec;

verus! {

/// Which rows of `after` equal which rows of `before`: the relation that the
/// alignment is computed from. It holds of `(i, j)` when row `i` of `after`
/// equals row `j` of `before`, and of no pair outside the two sequences.
pub open spec fn row_matches<T: PartialEq>(before: Seq<T>, after: Seq<T>) -> spec_fn(int, int) -> bool {
    |i: int, j: int| 0 <= i < after.len() && 0 <= j < before.len() && after[i].eq_spec(&before[j])
}

/// Length of the longest common subsequence of rows `i..` of the after
/// sequence and rows `j..` of the before sequence, where `eq(i, j)` says
/// whether after-row `i` equals before-row `j`.
pub open spec fn lcs_len(eq: spec_fn(int, int) -> bool, after_len: int, before_len: int, i: int, j: int) -> nat
    decreases after_len - i + before_len - j,
{
    if i < 0 || j < 0 || i >= after_len || j >= before_len {
        0
    } else if eq(i, j) {
        1 + lcs_len(eq, after_len, before_len, i + 1, j + 1)
    } else {
        let skip_after = lcs_len(eq, after_len, before_len, i + 1, j);
        let skip_before = lcs_len(eq, after_len, before_len, i, j + 1);
        if skip_after >= skip_before { skip_after } else { skip_before }
    }
}

/// No common subsequence is longer than either remaining sequence.
pub proof fn lemma_lcs_len_bound(eq: spec_fn(int, int) -> bool, after_len: int, before_len: int, i: int, j: int)
    requires
        0 <= i <= after_len,
        0 <= j <= before_len,
    ensures
        lcs_len(eq, after_len, before_len, i, j) <= after_len - i,
        lcs_len(eq, after_len, before_len, i, j) <= before_len - j,
    decreases after_len - i + before_len - j,
{
    if i < after_len && j < before_len {
        lemma_lcs_len_bound(eq, after_len, before_len, i + 1, j + 1);
        lemma_lcs_len_bound(eq, after_len, before_len, i + 1, j);
        lemma_lcs_len_bound(eq, after_len, before_len, i, j + 1);
    }
}

/// Setting one row aside shortens the longest common subsequence by at most
/// one row, and never lengthens it.
pub proof fn lemma_lcs_len_step(eq: spec_fn(int, int) -> bool, after_len: int, before_len: int, i: int, j: int)
    requires
        0 <= i <= after_len,
        0 <= j <= before_len,
    ensures
        lcs_len(eq, after_len, before_len, i + 1, j) <= lcs_len(eq, after_len, before_len, i, j),
        lcs_len(eq, after_len, before_len, i, j) <= lcs_len(eq, after_len, before_len, i + 1, j) + 1,
        lcs_len(eq, after_len, before_len, i, j + 1) <= lcs_len(eq, after_len, before_len, i, j),
        lcs_len(eq, after_len, before_len, i, j) <= lcs_len(eq, after_len, before_len, i, j + 1) + 1,
    decreases after_len - i + before_len - j,
{
    if i < after_len && j < before_len {
        lemma_lcs_len_step(eq, after_len, before_len, i + 1, j);
        lemma_lcs_len_step(eq, after_len, before_len, i, j + 1);
    }
}

/// The whole table: one row per after-row and one more, one column per
/// before-row and one more; cell `[i][j]` is `lcs_len` at `(i, j)`.
pub open spec fn lcs_table(eq: spec_fn(int, int) -> bool, after_len: int, before_len: int) -> Seq<Seq<u32>> {
    Seq::new(
        (after_len + 1) as nat,
        |i: int| Seq::new((before_len + 1) as nat, |j: int| lcs_len(eq, after_len, before_len, i, j) as u32),
    )
}

/// Whether the table of two sequences of these lengths can be held: each
/// length and one more is a `usize`, and the shorter length, which no cell
/// exceeds, is a `u32`.
pub open spec fn fits_table(after_len: int, before_len: int) -> bool {
    &&& after_len < usize::MAX
    &&& before_len < usize::MAX
    &&& after_len <= u32::MAX || before_len <= u32::MAX
}

/// Whether `table` has one row per after-row and one more, each with one
/// cell per before-row and one more.
pub open spec fn table_shaped(table: Seq<Vec<u32>>, after_len: int, before_len: int) -> bool {
    &&& table.len() == after_len + 1
    &&& forall|r: int| 0 <= r <= after_len ==> (#[trigger] table[r]).len() == before_len + 1
}

/// No cell exceeds the number of rows that remain on either side of it: so
/// the last row and the last column hold zeros.
pub open spec fn cells_bounded(table: Seq<Vec<u32>>, after_len: int, before_len: int) -> bool {
    forall|r: int, c: int|
        0 <= r <= after_len && 0 <= c <= before_len ==> (#[trigger] table[r][c]) <= after_len - r
            && table[r][c] <= before_len - c
}

/// The cells from `(i, j)` on, in the order in which the table is filled,
/// hold their final values.
spec fn cells_filled(
    table: Seq<Vec<u32>>,
    eq: spec_fn(int, int) -> bool,
    after_len: int,
    before_len: int,
    i: int,
    j: int,
) -> bool {
    forall|r: int, c: int|
        0 <= r <= after_len && 0 <= c <= before_len && (r > i || (r == i && c >= j)) ==> (
        #[trigger] table[r][c]) == lcs_len(eq, after_len, before_len, r, c)
}

/// Builds the table of longest-common-subsequence lengths of `before` and
/// `after`, bottom-up from the last row and column: cell `[i][j]` is the
/// length of the longest common subsequence of `after[i..]` and `before[j..]`.
///
/// Whatever `==` answers on `T`, no cell exceeds the number of rows that
/// remain on either side of it.
pub fn create_table<T: PartialEq>(before: &[T], after: &[T]) -> (table: Vec<Vec<u32>>)
    requires
        fits_table(after.len() as int, before.len() as int),
    ensures
        table_shaped(table@, after.len() as int, before.len() as int),
        cells_bounded(table@, after.len() as int, before.len() as int),
        T::obeys_eq_spec() ==> table.deep_view() == lcs_table(
            row_matches(before@, after@),
            after.len() as int,
            before.len() as int,
        ),
{
    let after_len = after.len();
    let before_len = before.len();
    let mut table: Vec<Vec<u32>> = Vec::new();
    let mut filled: usize = 0;
    while filled <= after_len
        invariant
            filled <= after_len + 1,
            after_len < usize::MAX,
            before_len < usize::MAX,
            table.len() == filled,
            forall|r: int| 0 <= r < filled ==> (#[trigger] table[r]).len() == before_len + 1,
            forall|r: int, c: int| 0 <= r < filled && 0 <= c <= before_len ==> (#[trigger] table[r][c]) == 0,
        decreases after_len + 1 - filled,
    {
        table.push(vec![0u32; before_len + 1]);
        filled += 1;
    }
    let ghost eq = row_matches(before@, after@);
    let ghost rows = after_len as int;
    let ghost cols = before_len as int;
    let mut i: usize = after_len;
    while i > 0
        invariant
            i <= after_len,
            after_len == after.len(),
            before_len == before.len(),
            rows == after_len,
            cols == before_len,
            before_len <= u32::MAX || after_len <= u32::MAX,
            eq == row_matches(before@, after@),
            table_shaped(table@, rows, cols),
            cells_bounded(table@, rows, cols),
            T::obeys_eq_spec() ==> cells_filled(table@, eq, rows, cols, i as int, 0),
        decreases i,
    {
        i -= 1;
        let mut j: usize = before_len;
        while j > 0
            invariant
                j <= before_len,
                i < after_len,
                after_len == after.len(),
                before_len == before.len(),
                rows == after_len,
                cols == before_len,
                before_len <= u32::MAX || after_len <= u32::MAX,
                eq == row_matches(before@, after@),
                table_shaped(table@, rows, cols),
                cells_bounded(table@, rows, cols),
                T::obeys_eq_spec() ==> cells_filled(table@, eq, rows, cols, i as int, j as int),
            decreases j,
        {
            j -= 1;
            let same = after[i] == before[j];
            let cell: u32 = if same {
                table[i + 1][j + 1] + 1
            } else {
                let skip_after: u32 = table[i + 1][j];
                let skip_before: u32 = table[i][j + 1];
                if skip_after >= skip_before {
                    skip_after
                } else {
                    skip_before
                }
            };
            table[i][j] = cell;
        }
    }
    proof {
        if T::obeys_eq_spec() {
            let expected = lcs_table(eq, rows, cols);
            assert forall|r: int| 0 <= r <= rows implies #[trigger] table.deep_view()[r] =~= expected[r] by {}
        }
    }
    table
}

/// The after-rows that a walk through `table` from cell `(i, j)` keeps, by
/// index: a row that equals the before-row at hand is kept and both move on;
/// otherwise the after-row is skipped if the cell below is no less than the
/// cell to the right, else the before-row is skipped.
pub open spec fn kept_rows(
    table: Seq<Seq<u32>>,
    eq: spec_fn(int, int) -> bool,
    after_len: int,
    before_len: int,
    i: int,
    j: int,
) -> Seq<int>
    decreases after_len - i + before_len - j,
{
    if i < 0 || j < 0 || i >= after_len || j >= before_len {
        Seq::empty()
    } else if eq(i, j) {
        seq![i] + kept_rows(table, eq, after_len, before_len, i + 1, j + 1)
    } else if table[i + 1][j] >= table[i][j + 1] {
        kept_rows(table, eq, after_len, before_len, i + 1, j)
    } else {
        kept_rows(table, eq, after_len, before_len, i, j + 1)
    }
}

/// Whether `table` has at least one row per after-row and one more, each
/// with at least one cell per before-row and one more.
pub open spec fn table_holds(table: Seq<Vec<u32>>, after_len: int, before_len: int) -> bool {
    &&& table.len() >= after_len + 1
    &&& forall|r: int| 0 <= r <= after_len ==> (#[trigger] table[r]).len() >= before_len + 1
}

/// Whether `rows` are indices below `len` in ascending order, none twice.
pub open spec fn ascending_below(rows: Seq<int>, len: int) -> bool {
    &&& forall|k: int| 0 <= k < rows.len() ==> 0 <= #[trigger] rows[k] < len
    &&& forall|k: int, l: int| 0 <= k < l < rows.len() ==> #[trigger] rows[k] < #[trigger] rows[l]
}

/// Reads a common subsequence of `before` and `after` off `table`, as the
/// rows of `after` that the walk from the first cell keeps. With the table of
/// `create_table` it is a longest one.
///
/// Whatever `==` answers on `T`, the rows that are kept are rows of `after`,
/// in the order in which they stand there, and no more than either sequence
/// has.
pub fn gen_lcs<'a, T: PartialEq>(table: &Vec<Vec<u32>>, before: &[T], after: &'a [T]) -> (kept: Vec<&'a T>)
    requires
        table_holds(table@, after.len() as int, before.len() as int),
    ensures
        kept.len() <= before.len(),
        kept.len() <= after.len(),
        T::obeys_eq_spec() ==> {
            let rows = kept_rows(
                table.deep_view(),
                row_matches(before@, after@),
                after.len() as int,
                before.len() as int,
                0,
                0,
            );
            &&& kept.len() == rows.len()
            &&& forall|k: int| 0 <= k < rows.len() ==> *(#[trigger] kept[k]) == after[rows[k]]
        },
        exists|rows: Seq<int>|
            {
                &&& #[trigger] ascending_below(rows, after.len() as int)
                &&& kept.len() == rows.len()
                &&& forall|k: int| 0 <= k < rows.len() ==> *(#[trigger] kept[k]) == after[rows[k]]
            },
{
    let before_len = before.len();
    let after_len = after.len();
    let ghost eq = row_matches(before@, after@);
    let ghost cells = table.deep_view();
    let ghost all = kept_rows(cells, eq, after_len as int, before_len as int, 0, 0);
    let ghost mut seen: Seq<int> = Seq::empty();
    let mut o: usize = 0;
    let mut n: usize = 0;
    let mut kept: Vec<&'a T> = Vec::new();
    while o < before_len && n < after_len
        invariant
            o <= before_len,
            n <= after_len,
            before_len == before.len(),
            after_len == after.len(),
            eq == row_matches(before@, after@),
            cells == table.deep_view(),
            table_holds(table@, after_len as int, before_len as int),
            kept.len() == seen.len(),
            seen.len() <= o,
            seen.len() <= n,
            ascending_below(seen, n as int),
            forall|k: int| 0 <= k < seen.len() ==> *(#[trigger] kept[k]) == after[seen[k]],
            T::obeys_eq_spec() ==> all == seen + kept_rows(
                cells,
                eq,
                after_len as int,
                before_len as int,
                n as int,
                o as int,
            ),
        decreases before_len - o + after_len - n,
    {
        if after[n] == before[o] {
            kept.push(&after[n]);
            proof {
                seen = seen.push(n as int);
            }
            o = o + 1;
            n = n + 1;
        } else if table[n + 1][o] >= table[n][o + 1] {
            n += 1;
        } else {
            o += 1;
        }
    }
    proof {
        assert(ascending_below(seen, after_len as int));
    }
    kept
}

} // verus!
