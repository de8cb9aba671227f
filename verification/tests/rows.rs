use lcs_png_diff::DiffOp::{Added, Common, Removed};
use lcs_png_diff::{decode_row, extract_rows, lcs_diff, DecodeFailure, RowToken};

#[test]
fn token_is_the_base64_text_of_the_row() {
    assert_eq!("////BQ==", RowToken::encode(&[255, 255, 255, 5]).as_str());
    assert_eq!("p6eFBw==", RowToken::encode(&[167, 167, 133, 7]).as_str());
    assert_eq!("", RowToken::encode(&[]).as_str());
}

#[test]
fn token_decodes_to_its_row() {
    let row = [0u8, 1, 2, 3, 250, 251, 252, 253];
    let token = RowToken::encode(&row);
    assert_eq!(Ok(row.to_vec()), decode_row(token.as_str()));
}

#[test]
fn tokens_are_equal_where_rows_are() {
    assert_eq!(RowToken::encode(&[1, 2, 3, 4]), RowToken::encode(&[1, 2, 3, 4]));
    assert_ne!(RowToken::encode(&[1, 2, 3, 4]), RowToken::encode(&[1, 2, 3, 5]));
    assert_ne!(RowToken::encode(&[1, 2, 3, 4]), RowToken::encode(&[1, 2, 3, 4, 0, 0, 0, 0]));
    assert_eq!(RowToken::new("AQIDBA==".to_string()), RowToken::encode(&[1, 2, 3, 4]));
}

#[test]
fn decode_row_gives_the_bytes() {
    assert_eq!(Ok(vec![255, 255, 255, 5]), decode_row("////BQ=="));
    assert_eq!(Ok(vec![255, 255, 255, 10]), decode_row("////Cg=="));
    assert_eq!(Ok(vec![]), decode_row(""));
}

#[test]
fn decode_row_rejects_a_byte_outside_the_alphabet() {
    assert_eq!(Err(DecodeFailure::InvalidByte { offset: 2, byte: b'!' }), decode_row("//!/BQ=="));
}

#[test]
fn decode_row_rejects_a_wrong_length() {
    assert_eq!(Err(DecodeFailure::InvalidLength), decode_row("////B"));
}

#[test]
fn decode_row_rejects_a_last_symbol_with_stray_bits() {
    assert_eq!(Err(DecodeFailure::InvalidLastSymbol { offset: 5, byte: b'R' }), decode_row("////BR=="));
}

#[test]
fn rows_are_cut_at_the_stride() {
    let bytes = [1u8, 2, 3, 4, 5, 6, 7, 8, 9, 10, 11, 12];
    let rows = extract_rows(&bytes, 4);
    assert_eq!(
        vec![RowToken::encode(&[1, 2, 3, 4]), RowToken::encode(&[5, 6, 7, 8]), RowToken::encode(&[9, 10, 11, 12])],
        rows
    );
}

#[test]
fn last_row_may_be_short() {
    let bytes = [1u8, 2, 3, 4, 5, 6, 7, 8, 9, 10];
    let rows = extract_rows(&bytes, 4);
    assert_eq!(3, rows.len());
    assert_eq!(RowToken::encode(&[9, 10]), rows[2]);
    assert_eq!(Ok(vec![9, 10]), decode_row(rows[2].as_str()));
}

#[test]
fn empty_buffer_has_no_rows() {
    assert_eq!(Vec::<RowToken>::new(), extract_rows(&[], 8));
}

#[test]
fn buffer_shorter_than_a_row_is_one_row() {
    assert_eq!(vec![RowToken::encode(&[1, 2, 3])], extract_rows(&[1, 2, 3], 8));
}

#[test]
fn rows_of_different_widths_never_match() {
    let narrow = extract_rows(&[0u8; 8], 4);
    let wide = extract_rows(&[0u8; 8], 8);
    assert_eq!(2, narrow.len());
    assert_eq!(1, wide.len());
    assert_ne!(narrow[0], wide[0]);
}

#[test]
fn rows_of_two_buffers_are_aligned_by_their_tokens() {
    let before = extract_rows(&[1, 1, 1, 1, 2, 2, 2, 2, 3, 3, 3, 3], 4);
    let after = extract_rows(&[1, 1, 1, 1, 9, 9, 9, 9, 3, 3, 3, 3, 4, 4, 4, 4], 4);
    assert_eq!(
        vec![
            Common { before_index: 0, after_index: 0 },
            Added { after_index: 1 },
            Removed { before_index: 1 },
            Common { before_index: 2, after_index: 2 },
            Added { after_index: 3 },
        ],
        lcs_diff(&before, &after)
    );
}
