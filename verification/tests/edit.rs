use lcs_png_diff::DiffOp::{Added, Common, Removed};
use lcs_png_diff::{common_prefix, common_suffix, create_table, lcs_diff, DiffOp};

fn removed(before_index: usize) -> DiffOp {
    Removed { before_index }
}

fn common(before_index: usize, after_index: usize) -> DiffOp {
    Common { before_index, after_index }
}

fn added(after_index: usize) -> DiffOp {
    Added { after_index }
}

/// The walk through the table of the two whole sequences, with nothing set
/// aside.
fn align_whole(before: &[i32], after: &[i32]) -> Vec<DiffOp> {
    let table = create_table(before, after);
    let (mut n, mut o) = (0, 0);
    let mut ops = Vec::new();
    while n < after.len() && o < before.len() {
        if after[n] == before[o] {
            ops.push(common(o, n));
            n += 1;
            o += 1;
        } else if table[n + 1][o] >= table[n][o + 1] {
            ops.push(added(n));
            n += 1;
        } else {
            ops.push(removed(o));
            o += 1;
        }
    }
    ops.extend((n..after.len()).map(added));
    ops.extend((o..before.len()).map(removed));
    ops
}

fn before_indices(ops: &[DiffOp]) -> Vec<usize> {
    ops.iter()
        .filter_map(|op| match op {
            Removed { before_index } | Common { before_index, .. } => Some(*before_index),
            Added { .. } => None,
        })
        .collect()
}

fn after_indices(ops: &[DiffOp]) -> Vec<usize> {
    ops.iter()
        .filter_map(|op| match op {
            Added { after_index } | Common { after_index, .. } => Some(*after_index),
            Removed { .. } => None,
        })
        .collect()
}

fn count(ops: &[DiffOp], kind: fn(&DiffOp) -> bool) -> usize {
    ops.iter().filter(|op| kind(op)).count()
}

fn is_common(op: &DiffOp) -> bool {
    matches!(op, Common { .. })
}

fn is_removed(op: &DiffOp) -> bool {
    matches!(op, Removed { .. })
}

fn is_added(op: &DiffOp) -> bool {
    matches!(op, Added { .. })
}

#[test]
fn script_of_numbers_recovers_the_common_rows() {
    let ops = lcs_diff(&[1, 2, 3, 4], &[2, 4]);
    assert_eq!(vec![removed(0), common(1, 0), removed(2), common(3, 1)], ops);
}

#[test]
fn script_against_itself_is_all_common() {
    let rows = ["a", "b", "a", "c"];
    let ops = lcs_diff(&rows, &rows);
    assert_eq!(vec![common(0, 0), common(1, 1), common(2, 2), common(3, 3)], ops);
}

#[test]
fn script_of_disjoint_sequences_has_no_common_row() {
    let ops = lcs_diff(&[1, 2, 3], &[4, 5]);
    assert_eq!(0, count(&ops, is_common));
    assert_eq!(3, count(&ops, is_removed));
    assert_eq!(2, count(&ops, is_added));
    // Every tie moves on in `after` first.
    assert_eq!(vec![added(0), added(1), removed(0), removed(1), removed(2)], ops);
}

#[test]
fn script_with_nothing_after_removes_every_row() {
    let none: [i32; 0] = [];
    assert_eq!(vec![removed(0), removed(1), removed(2)], lcs_diff(&[7, 8, 9], &none));
}

#[test]
fn script_with_nothing_before_adds_every_row() {
    let none: [i32; 0] = [];
    assert_eq!(vec![added(0), added(1)], lcs_diff(&none, &[7, 8]));
}

#[test]
fn script_of_two_empty_sequences_is_empty() {
    let none: [i32; 0] = [];
    assert_eq!(Vec::<DiffOp>::new(), lcs_diff(&none, &none));
}

#[test]
fn tie_is_broken_towards_added() {
    // Skipping either row leaves a common subsequence of one row.
    assert_eq!(vec![added(0), common(0, 1), removed(1)], lcs_diff(&[1, 2], &[2, 1]));
}

#[test]
fn prefix_and_suffix_are_counted_apart() {
    // All of the shorter sequence is prefix, so no row is left for a suffix.
    assert_eq!(2, common_prefix(&[1, 1, 1], &[1, 1]));
    assert_eq!(0, common_suffix(&[1, 1, 1], &[1, 1], 2));
    assert_eq!(vec![common(0, 0), common(1, 1), removed(2)], lcs_diff(&[1, 1, 1], &[1, 1]));
}

#[test]
fn prefix_stops_at_the_first_difference() {
    assert_eq!(2, common_prefix(&[1, 2, 3, 4], &[1, 2, 9, 4]));
    assert_eq!(0, common_prefix(&[1, 2], &[2, 1]));
    let none: [i32; 0] = [];
    assert_eq!(0, common_prefix(&none, &[1]));
}

#[test]
fn suffix_stops_at_the_first_difference_from_the_end() {
    assert_eq!(1, common_suffix(&[1, 2, 3, 4], &[1, 2, 9, 4], 2));
    assert_eq!(2, common_suffix(&[5, 3, 4], &[9, 9, 3, 4], 0));
    assert_eq!(0, common_suffix(&[1, 2], &[2, 1], 0));
}

#[test]
fn inserted_row_shifts_what_follows() {
    let before = ["head", "body", "foot"];
    let after = ["head", "banner", "body", "foot"];
    assert_eq!(
        vec![common(0, 0), added(1), common(1, 2), common(2, 3)],
        lcs_diff(&before, &after)
    );
}

#[test]
fn trimmed_script_is_the_alignment_of_the_whole() {
    let pairs: [(&[i32], &[i32]); 6] = [
        (&[1, 2, 3, 4], &[2, 4]),
        (&[1, 2, 3, 9, 5], &[1, 3, 4, 9, 5]),
        (&[1, 2, 3], &[1, 2, 3]),
        (&[1, 2, 3], &[4, 5]),
        (&[1, 1, 1], &[1, 1]),
        (&[5, 6, 7, 8, 9], &[5, 7, 6, 8, 9]),
    ];
    for (before, after) in pairs {
        assert_eq!(align_whole(before, after), lcs_diff(before, after));
    }
    assert_eq!(
        vec![common(0, 0), removed(1), common(2, 1), added(2), common(3, 3), common(4, 4)],
        lcs_diff(&[1, 2, 3, 9, 5], &[1, 3, 4, 9, 5])
    );
}

#[test]
fn leftover_row_equal_to_the_suffix_is_not_paired() {
    // The last row is set aside as the common suffix; the 7 left over in
    // `before` is removed, where the walk over the whole would pair it.
    let before = [1, 7, 7];
    let after = [2, 7];
    assert_eq!(vec![added(0), removed(0), removed(1), common(2, 1)], lcs_diff(&before, &after));
    assert_eq!(vec![added(0), removed(0), common(1, 1), removed(2)], align_whole(&before, &after));
}

#[test]
fn common_rows_are_as_many_as_the_first_cell_of_the_middle_table_and_the_ends() {
    let before = [1, 2, 3, 9, 5];
    let after = [1, 3, 4, 9, 5];
    let prefix = common_prefix(&before, &after);
    let suffix = common_suffix(&before, &after, prefix);
    assert_eq!((1, 2), (prefix, suffix));
    let table = create_table(&before[prefix..before.len() - suffix], &after[prefix..after.len() - suffix]);
    assert_eq!(1, table[0][0]);
    let ops = lcs_diff(&before, &after);
    assert_eq!(prefix + table[0][0] as usize + suffix, count(&ops, is_common));
    // The table over the whole sequences says the same.
    assert_eq!(4, create_table(&before, &after)[0][0]);
}

#[test]
fn script_names_every_row_once_and_in_order() {
    let before = ["a", "b", "c", "d", "e", "f"];
    let after = ["b", "x", "d", "y", "z", "f", "a"];
    let ops = lcs_diff(&before, &after);
    assert_eq!((0..before.len()).collect::<Vec<_>>(), before_indices(&ops));
    assert_eq!((0..after.len()).collect::<Vec<_>>(), after_indices(&ops));
    assert_eq!(before.len() + count(&ops, is_added), ops.len());
    assert_eq!(after.len() + count(&ops, is_removed), ops.len());
}

#[test]
fn common_rows_pair_equal_rows() {
    let before = ["a", "b", "c", "d", "e", "f"];
    let after = ["b", "x", "d", "y", "z", "f", "a"];
    for op in lcs_diff(&before, &after) {
        if let Common { before_index, after_index } = op {
            assert_eq!(before[before_index], after[after_index]);
        }
    }
}
