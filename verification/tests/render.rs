use image::{DynamicImage, GenericImageView, ImageOutputFormat, RgbaImage};
use lcs_png_diff::DiffOp::{Added, Common, Removed};
use lcs_png_diff::{composite, decode_row, diff, diff_slice, try_diff, DecodeFailure, DiffError, RowToken};
use std::io::Cursor;

fn rgba(width: u32, height: u32, bytes: Vec<u8>) -> DynamicImage {
    DynamicImage::ImageRgba8(RgbaImage::from_raw(width, height, bytes).unwrap())
}

fn png(img: &DynamicImage) -> Vec<u8> {
    let mut encoded = Vec::new();
    img.write_to(&mut Cursor::new(&mut encoded), ImageOutputFormat::Png).unwrap();
    encoded
}

const A: [u8; 8] = [10, 20, 30, 255, 40, 50, 60, 128];
const B: [u8; 8] = [1, 2, 3, 4, 5, 6, 7, 8];
const C: [u8; 8] = [200, 201, 202, 203, 204, 205, 206, 207];

fn rows(parts: &[[u8; 8]]) -> Vec<u8> {
    parts.concat()
}

#[test]
fn diff_of_an_image_with_itself_is_the_image() {
    let img = rgba(2, 3, rows(&[A, B, C]));
    let out = diff(&img, &img).unwrap();
    assert_eq!((2, 3), out.dimensions());
    assert_eq!(img.as_bytes(), out.as_bytes());
    assert_eq!(img, out);
}

#[test]
fn common_row_is_drawn_as_it_is() {
    let before = rgba(2, 1, A.to_vec());
    let after = rgba(2, 1, A.to_vec());
    let out = diff(&before, &after).unwrap();
    assert_eq!(&A[..], out.as_bytes());
}

#[test]
fn removed_row_is_tinted_red() {
    let before = rgba(2, 2, rows(&[A, B]));
    let after = rgba(2, 1, A.to_vec());
    let out = diff(&before, &after).unwrap();
    assert_eq!((2, 2), out.dimensions());
    // (3 * 1 + 255) / 4, (3 * 2 + 119) / 4, (3 * 3 + 119) / 4, 4 and
    // (3 * 5 + 255) / 4, (3 * 6 + 119) / 4, (3 * 7 + 119) / 4, 8.
    assert_eq!(rows(&[A, [64, 31, 32, 4, 67, 34, 35, 8]]), out.as_bytes());
}

#[test]
fn added_row_is_tinted_green() {
    let before = rgba(2, 1, A.to_vec());
    let after = rgba(2, 2, rows(&[B, A]));
    let out = diff(&before, &after).unwrap();
    assert_eq!((2, 2), out.dimensions());
    // (3 * 1 + 99) / 4, (3 * 2 + 195) / 4, (3 * 3 + 99) / 4, 4 and
    // (3 * 5 + 99) / 4, (3 * 6 + 195) / 4, (3 * 7 + 99) / 4, 8.
    assert_eq!(rows(&[[25, 50, 27, 4, 28, 53, 30, 8], A]), out.as_bytes());
}

#[test]
fn rows_are_stacked_in_the_order_of_the_script() {
    let before = rgba(2, 3, rows(&[A, B, C]));
    let after = rgba(2, 3, rows(&[A, C, B]));
    let out = diff(&before, &after).unwrap();
    // A is the common prefix; then C is added, B is common, C is removed.
    assert_eq!((2, 4), out.dimensions());
    let added_c = [174, 199, 176, 203, 177, 202, 179, 207];
    let removed_c = [213, 180, 181, 203, 216, 183, 184, 207];
    assert_eq!(rows(&[A, added_c, B, removed_c]), out.as_bytes());
}

#[test]
fn narrower_image_is_padded_with_transparent_pixels() {
    let before = rgba(2, 1, A.to_vec());
    let after = rgba(1, 1, vec![10, 20, 30, 255]);
    let out = diff(&before, &after).unwrap();
    assert_eq!((2, 2), out.dimensions());
    // Rows of different widths are never equal: the after-row is added and
    // its missing pixel is a transparent one, tinted; the before-row is
    // removed.
    let added = [32, 63, 47, 255, 24, 48, 24, 0];
    let removed = [71, 44, 52, 255, 93, 67, 74, 128];
    assert_eq!(rows(&[added, removed]), out.as_bytes());
}

#[test]
fn diff_is_as_wide_as_the_wider_image() {
    let before = rgba(1, 2, vec![1, 2, 3, 4, 5, 6, 7, 8]);
    let after = rgba(3, 1, vec![9; 12]);
    let out = diff(&before, &after).unwrap();
    assert_eq!((3, 3), out.dimensions());
    assert_eq!(3 * 3 * 4, out.as_bytes().len());
}

#[test]
fn diff_of_images_without_rows_is_empty() {
    let before = rgba(2, 0, vec![]);
    let after = rgba(2, 0, vec![]);
    let out = diff(&before, &after).unwrap();
    assert_eq!((2, 0), out.dimensions());
    assert!(out.as_bytes().is_empty());
}

#[test]
fn try_diff_agrees_with_diff() {
    let before = rgba(2, 3, rows(&[A, B, C]));
    let after = rgba(2, 2, rows(&[B, A]));
    assert_eq!(diff(&before, &after).unwrap(), try_diff(&before, &after).unwrap());
}

#[test]
fn try_diff_refuses_an_image_without_width() {
    let empty = rgba(0, 0, vec![]);
    let img = rgba(2, 1, A.to_vec());
    assert_eq!(Err(DiffError::NotDrawable), try_diff(&empty, &img));
    assert_eq!(Err(DiffError::NotDrawable), try_diff(&img, &empty));
}

#[test]
fn composite_draws_each_entry_from_its_token() {
    let before = [RowToken::encode(&A), RowToken::encode(&B)];
    let after = [RowToken::encode(&A), RowToken::encode(&C)];
    let ops = [
        Common { before_index: 0, after_index: 0 },
        Added { after_index: 1 },
        Removed { before_index: 1 },
    ];
    let out = composite(&ops, &before, &after, 2, 2).unwrap();
    assert_eq!((2, 3), out.dimensions());
    let added_c = [174, 199, 176, 203, 177, 202, 179, 207];
    let removed_b = [64, 31, 32, 4, 67, 34, 35, 8];
    assert_eq!(rows(&[A, added_c, removed_b]), out.as_bytes());
}

#[test]
fn composite_of_no_entries_is_an_image_without_rows() {
    let out = composite(&[], &[], &[], 3, 5).unwrap();
    assert_eq!((5, 0), out.dimensions());
}

#[test]
fn composite_shows_a_short_row_as_far_as_it_reaches() {
    let before = [RowToken::encode(&[1, 2, 3, 4, 5, 6])];
    let ops = [Common { before_index: 0, after_index: 0 }];
    let out = composite(&ops, &before, &before, 2, 2).unwrap();
    assert_eq!(&[1, 2, 3, 4, 0, 0, 0, 0][..], out.as_bytes());
}

#[test]
fn composite_fails_on_a_token_that_is_no_base64() {
    let before = [RowToken::encode(&A), RowToken::new("not base64!".to_string())];
    let after = [RowToken::encode(&A)];
    let ops = [Common { before_index: 0, after_index: 0 }, Removed { before_index: 1 }];
    assert_eq!(Err(decode_row("not base64!").unwrap_err()), composite(&ops, &before, &after, 2, 2));
    assert_eq!(
        Err(DecodeFailure::InvalidByte { offset: 3, byte: b' ' }),
        composite(&ops, &before, &after, 2, 2)
    );
    // A corrupt token that no entry names does no harm.
    assert!(composite(&ops[..1], &before, &after, 2, 2).is_ok());
}

#[test]
fn composite_fails_with_the_failure_of_the_first_corrupt_row() {
    let before = [RowToken::new("////B".to_string())];
    let after = [RowToken::new("//!/BQ==".to_string())];
    let removed_first = [Removed { before_index: 0 }, Added { after_index: 0 }];
    assert_eq!(Err(DecodeFailure::InvalidLength), composite(&removed_first, &before, &after, 1, 1));
    let added_first = [Added { after_index: 0 }, Removed { before_index: 0 }];
    assert_eq!(
        Err(DecodeFailure::InvalidByte { offset: 2, byte: b'!' }),
        composite(&added_first, &before, &after, 1, 1)
    );
}

#[test]
fn diff_slice_reads_both_images_and_gives_the_bytes_of_the_diff() {
    let before = rgba(2, 2, rows(&[A, B]));
    let after = rgba(2, 1, A.to_vec());
    let bytes = diff_slice(&png(&before), &png(&after)).unwrap();
    assert_eq!(rows(&[A, [64, 31, 32, 4, 67, 34, 35, 8]]), bytes);
}

#[test]
fn diff_slice_of_one_image_twice_gives_its_bytes() {
    let img = rgba(2, 3, rows(&[A, B, C]));
    assert_eq!(Ok(rows(&[A, B, C])), diff_slice(&png(&img), &png(&img)));
}

#[test]
fn diff_slice_refuses_a_truncated_image() {
    let img = png(&rgba(2, 1, A.to_vec()));
    assert!(matches!(diff_slice(&img, b"\x89PNG"), Err(DiffError::UnreadableAfter)));
}

#[test]
fn diff_slice_says_which_image_cannot_be_read() {
    let img = png(&rgba(2, 1, A.to_vec()));
    assert_eq!(Err(DiffError::UnreadableBefore), diff_slice(b"no image", &img));
    assert_eq!(Err(DiffError::UnreadableAfter), diff_slice(&img, b"no image"));
    assert_eq!(Err(DiffError::UnreadableBefore), diff_slice(&[], &[]));
}
