use base64::{decode, encode};
use lcs_png_diff::{create_table, gen_lcs};

#[test]
fn should_create_table_with_encode_pixel_array() {
    let old = [
        255, 255, 255, 5, 167, 167, 133, 7, 133, 71, 132, 4, 255, 255, 255, 10,
    ];
    let old_chunks: Vec<String> = old.to_vec().chunks(4).map(encode).collect();
    let new = [
        255, 255, 255, 5, 133, 71, 132, 4, 167, 167, 133, 7, 255, 255, 255, 10,
    ];
    let new_chunks: Vec<String> = new.to_vec().chunks(4).map(encode).collect();
    let lcs_table = create_table(&old_chunks, &new_chunks);
    assert_eq!(
        vec!["////BQ==", "p6eFBw==", "////Cg=="],
        gen_lcs(&lcs_table, &old_chunks, &new_chunks)
    );
    assert_eq!(vec![255, 255, 255, 5], decode("////BQ==").unwrap());
    assert_eq!(vec![167, 167, 133, 7], decode("p6eFBw==").unwrap());
    assert_eq!(vec![255, 255, 255, 10], decode("////Cg==").unwrap());
    assert_eq!(3, lcs_table[0][0]);
}

#[test]
fn should_create_table_with_strings2() {
    let old = [
        "HH", "ee", "ll", "ll", "oo", "  ", "ww", "oo", "rr", "ll", "dd",
    ];
    let new = [
        "HH", "aa", "cc", "kk", "yy", "ii", "nn", "  ", "oo", "oo", "zz",
    ];
    let lcs_table = create_table(&old, &new);
    let expected = vec![
        /* * * * * H  e  l  l  o  _  w  o  r  l  d  */
        /*H*/ vec![3, 2, 2, 2, 2, 2, 1, 1, 0, 0, 0, 0],
        /*a*/ vec![2, 2, 2, 2, 2, 2, 1, 1, 0, 0, 0, 0],
        /*c*/ vec![2, 2, 2, 2, 2, 2, 1, 1, 0, 0, 0, 0],
        /*k*/ vec![2, 2, 2, 2, 2, 2, 1, 1, 0, 0, 0, 0],
        /*y*/ vec![2, 2, 2, 2, 2, 2, 1, 1, 0, 0, 0, 0],
        /*i*/ vec![2, 2, 2, 2, 2, 2, 1, 1, 0, 0, 0, 0],
        /*n*/ vec![2, 2, 2, 2, 2, 2, 1, 1, 0, 0, 0, 0],
        /*_*/ vec![2, 2, 2, 2, 2, 2, 1, 1, 0, 0, 0, 0],
        /*o*/ vec![2, 2, 2, 2, 2, 1, 1, 1, 0, 0, 0, 0],
        /*o*/ vec![1, 1, 1, 1, 1, 1, 1, 1, 0, 0, 0, 0],
        /*z*/ vec![0, 0, 0, 0, 0, 0, 0, 0, 0, 0, 0, 0],
        /* */ vec![0, 0, 0, 0, 0, 0, 0, 0, 0, 0, 0, 0],
    ];
    assert_eq!(
        ["HH", "oo", "oo"].iter().collect::<Vec<_>>(),
        gen_lcs(&lcs_table, &old, &new)
    );
    assert_eq!(expected, lcs_table);
}

#[test]
fn should_create_table_with_strings() {
    let old = ["H", "e", "l", "l", "o", " ", "w", "o", "r", "l", "d"];
    let new = ["H", "a", "c", "k", "y", "i", "n", " ", "o", "o", "z"];
    let lcs_table = create_table(&old, &new);
    let expected = vec![
        /* * * * * H  e  l  l  o  _  w  o  r  l  d  */
        /*H*/ vec![3, 2, 2, 2, 2, 2, 1, 1, 0, 0, 0, 0],
        /*a*/ vec![2, 2, 2, 2, 2, 2, 1, 1, 0, 0, 0, 0],
        /*c*/ vec![2, 2, 2, 2, 2, 2, 1, 1, 0, 0, 0, 0],
        /*k*/ vec![2, 2, 2, 2, 2, 2, 1, 1, 0, 0, 0, 0],
        /*y*/ vec![2, 2, 2, 2, 2, 2, 1, 1, 0, 0, 0, 0],
        /*i*/ vec![2, 2, 2, 2, 2, 2, 1, 1, 0, 0, 0, 0],
        /*n*/ vec![2, 2, 2, 2, 2, 2, 1, 1, 0, 0, 0, 0],
        /*_*/ vec![2, 2, 2, 2, 2, 2, 1, 1, 0, 0, 0, 0],
        /*o*/ vec![2, 2, 2, 2, 2, 1, 1, 1, 0, 0, 0, 0],
        /*o*/ vec![1, 1, 1, 1, 1, 1, 1, 1, 0, 0, 0, 0],
        /*z*/ vec![0, 0, 0, 0, 0, 0, 0, 0, 0, 0, 0, 0],
        /* */ vec![0, 0, 0, 0, 0, 0, 0, 0, 0, 0, 0, 0],
    ];
    assert_eq!(["H", "o", "o"].iter().collect::<Vec<_>>(), gen_lcs(&lcs_table, &old, &new));
    assert_eq!(expected, lcs_table);
}

#[test]
fn should_create_table_with_chars() {
    let old = ['H', 'e', 'l', 'l', 'o', ' ', 'w', 'o', 'r', 'l', 'd'];
    let new = ['H', 'a', 'c', 'k', 'y', 'i', 'n', ' ', 'o', 'o', 'z'];
    let lcs_table = create_table(&old, &new);
    let expected = vec![
        /* * * * * H  e  l  l  o  _  w  o  r  l  d  */
        /*H*/ vec![3, 2, 2, 2, 2, 2, 1, 1, 0, 0, 0, 0],
        /*a*/ vec![2, 2, 2, 2, 2, 2, 1, 1, 0, 0, 0, 0],
        /*c*/ vec![2, 2, 2, 2, 2, 2, 1, 1, 0, 0, 0, 0],
        /*k*/ vec![2, 2, 2, 2, 2, 2, 1, 1, 0, 0, 0, 0],
        /*y*/ vec![2, 2, 2, 2, 2, 2, 1, 1, 0, 0, 0, 0],
        /*i*/ vec![2, 2, 2, 2, 2, 2, 1, 1, 0, 0, 0, 0],
        /*n*/ vec![2, 2, 2, 2, 2, 2, 1, 1, 0, 0, 0, 0],
        /*_*/ vec![2, 2, 2, 2, 2, 2, 1, 1, 0, 0, 0, 0],
        /*o*/ vec![2, 2, 2, 2, 2, 1, 1, 1, 0, 0, 0, 0],
        /*o*/ vec![1, 1, 1, 1, 1, 1, 1, 1, 0, 0, 0, 0],
        /*z*/ vec![0, 0, 0, 0, 0, 0, 0, 0, 0, 0, 0, 0],
        /* */ vec![0, 0, 0, 0, 0, 0, 0, 0, 0, 0, 0, 0],
    ];
    assert_eq!(
        ['H', 'o', 'o'].iter().collect::<Vec<_>>(),
        gen_lcs(&lcs_table, &old, &new)
    );
    assert_eq!(expected, lcs_table);
}

#[test]
fn should_create_table_with_numbers() {
    let old = [1, 2, 3, 4];
    let new = [2, 4];
    let lcs_table = create_table(&old, &new);
    let expected = vec![
        vec![2, 2, 1, 1, 0],
        vec![1, 1, 1, 1, 0],
        vec![0, 0, 0, 0, 0],
    ];
    let res = gen_lcs(&lcs_table, &old, &new);
    assert_eq!([2, 4].iter().collect::<Vec<_>>(), res);
    assert_eq!(expected, lcs_table);
}

#[test]
fn table_of_empty_sequences_is_one_zero() {
    let none: [u8; 0] = [];
    assert_eq!(vec![vec![0]], create_table(&none, &none));
    assert_eq!(vec![vec![0, 0, 0]], create_table(&[1u8, 2], &none));
    assert_eq!(vec![vec![0], vec![0], vec![0]], create_table(&none, &[1u8, 2]));
}

#[test]
fn table_has_one_more_row_and_column_than_rows_compared() {
    let table = create_table(&[7u8, 8, 9], &[9u8, 7]);
    assert_eq!(3, table.len());
    for row in &table {
        assert_eq!(4, row.len());
    }
    assert_eq!(vec![vec![1, 1, 1, 0], vec![1, 0, 0, 0], vec![0, 0, 0, 0]], table);
}

#[test]
fn walk_prefers_skipping_the_after_row_on_a_tie() {
    // Either 1 or 2 is a longest common subsequence; the tie at the first
    // cell is broken by moving on in `after`, which keeps 1.
    let old = [1, 2];
    let new = [2, 1];
    let table = create_table(&old, &new);
    assert_eq!(vec![vec![1, 1, 0], vec![1, 0, 0], vec![0, 0, 0]], table);
    assert_eq!(vec![&1], gen_lcs(&table, &old, &new));
}

#[test]
fn walk_follows_the_table_it_is_given() {
    // With all cells zero every tie moves on in `after`, so only a match in
    // the first column of `before` can be kept.
    let old = [1, 2];
    let new = [2, 1];
    let zeros = vec![vec![0u32; 3]; 3];
    assert_eq!(vec![&1], gen_lcs(&zeros, &old, &new));
    let new = [2, 3];
    assert_eq!(Vec::<&i32>::new(), gen_lcs(&zeros, &old, &new));
}

#[test]
fn walk_takes_a_table_larger_than_the_sequences_need() {
    let old = [1, 2, 3, 4];
    let new = [2, 4];
    let mut table = create_table(&old, &new);
    for row in table.iter_mut() {
        row.push(9);
    }
    table.push(vec![9; 6]);
    assert_eq!(vec![&2, &4], gen_lcs(&table, &old, &new));
}

#[test]
fn walk_keeps_no_more_rows_than_either_sequence_has() {
    let old = ["a", "a", "a"];
    let new = ["a"];
    let kept = gen_lcs(&create_table(&old, &new), &old, &new);
    assert_eq!(vec![&"a"], kept);
    let kept = gen_lcs(&create_table(&new, &old), &new, &old);
    assert_eq!(vec![&"a"], kept);
}

#[test]
fn table_has_a_border_of_zeros_and_cells_within_what_remains() {
    let old = ['x', 'y', 'x', 'y', 'x'];
    let new = ['x', 'x', 'y'];
    let table = create_table(&old, &new);
    for (i, row) in table.iter().enumerate() {
        for (j, cell) in row.iter().enumerate() {
            assert!(*cell as usize <= new.len() - i);
            assert!(*cell as usize <= old.len() - j);
        }
    }
    assert_eq!(vec![0; 6], table[3]);
}
