//! The compositor: the rows of two images, in the order of their edit
//! script, drawn into one raster with removed and added rows tinted.

use crate::blend::{blend, highlight_rate, no_rate, tinted, BlendRate, BLACK, GREEN, RED};
use crate::canvas::{
    image_bytes, image_dimensions, image_raw, image_size, into_image, new_raster, pixel_offset, put_pixel,
    decoded_bytes, decoded_size, raster_bytes, raster_dimensions, raster_size, read_image, Canvas,
};
use crate::edit::{edit_script, lcs_diff};
use crate::laws::{lemma_reconstruction, lemma_rows_in_range};
use crate::ops::DiffOp;
use crate::rows::{
    base64_bytes, base64_failure, base64_text, decode_row, extract_rows, row_bytes, row_count, DecodeFailure,
    RowToken,
};
use crate::table::row_matches;
use image::DynamicImage;
use vstd::pervasive::unreached;
use vstd::prelude::*;

verus! {

/// The four channel values of the pixel at `(x, y)` in a raster that is
/// `width` pixels wide.
pub open spec fn pixel_at(bytes: Seq<u8>, width: int, x: int, y: int) -> Seq<u8> {
    bytes.subrange(pixel_offset(width, x, y), pixel_offset(width, x, y) + 4)
}

/// The pixel that a row of `row_width` pixels shows in column `x`: its own
/// where the row reaches that far, and a transparent one beyond it.
pub open spec fn source_pixel(row: Seq<u8>, row_width: int, x: int) -> Seq<u8> {
    if x < row_width && 4 * x + 4 <= row.len() {
        row.subrange(4 * x, 4 * x + 4)
    } else {
        seq![0u8, 0u8, 0u8, 0u8]
    }
}

/// The rows of a raster stand one after the other, `4 * width` bytes each.
proof fn lemma_row_span(width: int, height: int, y: int)
    requires
        0 <= width,
        0 <= y < height,
    ensures
        pixel_offset(width, 0, y) == 4 * width * y,
        pixel_offset(width, 0, y + 1) == pixel_offset(width, 0, y) + 4 * width,
        0 <= pixel_offset(width, 0, y),
        pixel_offset(width, 0, y + 1) <= 4 * width * height,
{
    assert(4 * (y * width) == 4 * width * y) by (nonlinear_arith);
    assert((y + 1) * width == y * width + width) by (nonlinear_arith);
    assert(0 <= y * width) by (nonlinear_arith)
        requires
            0 <= y,
            0 <= width,
    ;
    assert((y + 1) * width <= height * width) by (nonlinear_arith)
        requires
            y + 1 <= height,
            0 <= width,
    ;
    assert(4 * width * height == 4 * (height * width)) by (nonlinear_arith);
}

/// Draws one row of the diff into row `y` of `img`: the row that `data` is
/// the token of, `row_width` pixels wide, each pixel tinted towards `rgb`;
/// beyond the row the pixels are transparent ones, tinted too. Nothing is
/// drawn where `data` is no token.
pub(crate) fn put_diff_pixels(
    y: usize,
    img: &mut Canvas,
    row_width: u32,
    data: &str,
    rgb: (u8, u8, u8),
    rate: BlendRate,
) -> (drawn: Result<(), DecodeFailure>)
    requires
        rate.valid(),
        raster_size(*old(img)).0 == 0 || y < raster_size(*old(img)).1,
    ensures
        raster_size(*final(img)) == raster_size(*old(img)),
        raster_bytes(*final(img)).len() == raster_bytes(*old(img)).len(),
        drawn is Err <==> base64_bytes(data@) is None,
        drawn matches Err(failure) ==> base64_failure(data@) == Some(failure),
        drawn is Err ==> raster_bytes(*final(img)) == raster_bytes(*old(img)),
        drawn is Ok ==> forall|x: int|
            0 <= x < raster_size(*old(img)).0 ==> #[trigger] pixel_at(
                raster_bytes(*final(img)),
                raster_size(*old(img)).0 as int,
                x,
                y as int,
            ) == tinted(source_pixel(base64_bytes(data@)->0, row_width as int, x), rgb, rate),
        forall|k: int|
            0 <= k < raster_bytes(*old(img)).len() && !(pixel_offset(raster_size(*old(img)).0 as int, 0, y as int)
                <= k < pixel_offset(raster_size(*old(img)).0 as int, 0, y + 1)) ==> raster_bytes(
                *final(img),
            )[k] == raster_bytes(*old(img))[k],
{
    let row = match decode_row(data) {
        Ok(bytes) => bytes,
        Err(failure) => {
            return Err(failure);
        },
    };
    let (width, height) = raster_dimensions(img);
    let ghost before = raster_bytes(*img);
    let ghost w = width as int;
    let ghost top = pixel_offset(w, 0, y as int);
    let mut x: u32 = 0;
    while x < width
        invariant
            x <= width,
            rate.valid(),
            w == width,
            top == pixel_offset(w, 0, y as int),
            width == 0 || y < height,
            raster_size(*img) == (width, height),
            raster_size(*img) == raster_size(*old(img)),
            before == raster_bytes(*old(img)),
            raster_bytes(*img).len() == before.len(),
            4 * width * height <= before.len(),
            base64_bytes(data@) == Some(row@),
            forall|c: int|
                0 <= c < x ==> #[trigger] pixel_at(raster_bytes(*img), w, c, y as int) == tinted(
                    source_pixel(row@, row_width as int, c),
                    rgb,
                    rate,
                ),
            forall|k: int|
                0 <= k < before.len() && !(top <= k < top + 4 * x) ==> raster_bytes(*img)[k] == before[k],
        decreases width - x,
    {
        let reach: u64 = 4 * (x as u64) + 3;
        let pixel: [u8; 4] = if row_width > x && reach < row.len() as u64 {
            let index: usize = (reach - 3) as usize;
            [row[index], row[index + 1], row[index + 2], row[index + 3]]
        } else {
            [0, 0, 0, 0]
        };
        let shown = blend(pixel, rgb, rate);
        let ghost earlier = raster_bytes(*img);
        proof {
            lemma_row_span(w, height as int, y as int);
        }
        put_pixel(img, x, y as u32, shown);
        proof {
            let now = raster_bytes(*img);
            assert forall|c: int| 0 <= c < x implies #[trigger] pixel_at(now, w, c, y as int) == tinted(
                source_pixel(row@, row_width as int, c),
                rgb,
                rate,
            ) by {
                assert(pixel_at(now, w, c, y as int) =~= pixel_at(earlier, w, c, y as int));
            }
        }
        x += 1;
    }
    proof {
        if width > 0 {
            lemma_row_span(w, height as int, y as int);
        } else {
            assert(pixel_offset(w, 0, y + 1) == top) by (nonlinear_arith)
                requires
                    w == 0,
                    top == pixel_offset(w, 0, y as int),
            ;
        }
    }
    Ok(())
}

/// The wider of two widths.
pub open spec fn wider(before_width: u32, after_width: u32) -> u32 {
    if before_width >= after_width {
        before_width
    } else {
        after_width
    }
}

/// The token of the row that an entry of an edit script stands for: for a
/// common row, the one of `before`.
pub open spec fn op_token(op: DiffOp, before_rows: Seq<RowToken>, after_rows: Seq<RowToken>) -> RowToken {
    match op {
        DiffOp::Removed { before_index } => before_rows[before_index as int],
        DiffOp::Common { before_index, .. } => before_rows[before_index as int],
        DiffOp::Added { after_index } => after_rows[after_index as int],
    }
}

/// Whether every entry of `ops` names a row that the sequences have.
pub open spec fn ops_in_range(ops: Seq<DiffOp>, before_len: int, after_len: int) -> bool {
    forall|y: int|
        0 <= y < ops.len() ==> match #[trigger] ops[y] {
            DiffOp::Removed { before_index } => before_index < before_len,
            DiffOp::Common { before_index, after_index } => before_index < before_len && after_index
                < after_len,
            DiffOp::Added { after_index } => after_index < after_len,
        }
}

/// The pixel that the row of `op` shows in column `x` of the diff, where
/// `row` holds the bytes of that row: a removed row is tinted red, an added
/// row green, each as wide as its image; a common row is shown as it is, as
/// wide as the diff.
pub open spec fn shown_pixel(op: DiffOp, row: Seq<u8>, x: int, before_width: u32, after_width: u32) -> Seq<u8> {
    match op {
        DiffOp::Removed { .. } => tinted(source_pixel(row, before_width as int, x), RED, highlight_rate()),
        DiffOp::Common { .. } => tinted(
            source_pixel(row, wider(before_width, after_width) as int, x),
            BLACK,
            no_rate(),
        ),
        DiffOp::Added { .. } => tinted(source_pixel(row, after_width as int, x), GREEN, highlight_rate()),
    }
}

/// A row of a raster lies wholly above every row below it.
proof fn lemma_rows_apart(width: int, x: int, above: int, y: int)
    requires
        0 <= x < width,
        0 <= above < y,
    ensures
        0 <= pixel_offset(width, x, above),
        pixel_offset(width, x, above) + 4 <= pixel_offset(width, 0, y),
{
    assert((above + 1) * width <= y * width) by (nonlinear_arith)
        requires
            above + 1 <= y,
            0 <= width,
    ;
    assert((above + 1) * width == above * width + width) by (nonlinear_arith);
    assert(0 <= above * width) by (nonlinear_arith)
        requires
            0 <= above,
            0 <= width,
    ;
}

/// Whether entry `y` of `ops` is the first whose row has a token that is no
/// base64 text.
pub open spec fn first_corrupt(
    ops: Seq<DiffOp>,
    before_rows: Seq<RowToken>,
    after_rows: Seq<RowToken>,
    y: int,
) -> bool {
    &&& 0 <= y < ops.len()
    &&& base64_bytes(op_token(ops[y], before_rows, after_rows)@) is None
    &&& forall|above: int|
        0 <= above < y ==> base64_bytes(op_token(#[trigger] ops[above], before_rows, after_rows)@) is Some
}

/// Draws an edit script: one row of the result for each entry, top down,
/// from the token of the row that the entry names. The result is as wide as
/// the wider image. It fails where one of those tokens is no base64 text,
/// and only there, with the failure of the first such token.
pub fn composite(
    ops: &[DiffOp],
    before_rows: &[RowToken],
    after_rows: &[RowToken],
    before_width: u32,
    after_width: u32,
) -> (result: Result<DynamicImage, DecodeFailure>)
    requires
        ops_in_range(ops@, before_rows.len() as int, after_rows.len() as int),
        ops.len() <= u32::MAX,
        4 * wider(before_width, after_width) * ops.len() <= isize::MAX,
    ensures
        result is Ok <==> forall|y: int|
            0 <= y < ops.len() ==> base64_bytes(op_token(#[trigger] ops[y], before_rows@, after_rows@)@) is Some,
        result matches Err(failure) ==> exists|y: int|
            #[trigger] first_corrupt(ops@, before_rows@, after_rows@, y) && base64_failure(
                op_token(ops[y], before_rows@, after_rows@)@,
            ) == Some(failure),
        result matches Ok(img) ==> {
            let width = wider(before_width, after_width);
            &&& image_size(img) == (width, ops.len() as u32)
            &&& image_bytes(img).len() == 4 * width * ops.len()
            &&& forall|x: int, y: int|
                0 <= x < width && 0 <= y < ops.len() ==> #[trigger] pixel_at(image_bytes(img), width as int, x, y)
                    == shown_pixel(
                    ops[y],
                    base64_bytes(op_token(ops[y], before_rows@, after_rows@)@)->0,
                    x,
                    before_width,
                    after_width,
                )
        },
{
    let height = ops.len() as u32;
    let width = if before_width >= after_width {
        before_width
    } else {
        after_width
    };
    let mut img = new_raster(width, height);
    let mut y: usize = 0;
    while y < ops.len()
        invariant
            y <= ops.len(),
            height == ops.len(),
            width == wider(before_width, after_width),
            ops_in_range(ops@, before_rows.len() as int, after_rows.len() as int),
            raster_size(img) == (width, height),
            raster_bytes(img).len() == 4 * width * height,
            forall|above: int|
                0 <= above < y ==> base64_bytes(op_token(#[trigger] ops[above], before_rows@, after_rows@)@) is Some,
            forall|x: int, above: int|
                0 <= x < width && 0 <= above < y ==> #[trigger] pixel_at(raster_bytes(img), width as int, x, above)
                    == shown_pixel(
                    ops[above],
                    base64_bytes(op_token(ops[above], before_rows@, after_rows@)@)->0,
                    x,
                    before_width,
                    after_width,
                ),
        decreases ops.len() - y,
    {
        let ghost earlier_img = img;
        let ghost earlier = raster_bytes(img);
        let op = ops[y];
        let (row_width, token, rgb, rate) = match op {
            DiffOp::Added { after_index } => (after_width, &after_rows[after_index], GREEN, BlendRate::highlight()),
            DiffOp::Removed { before_index } => (
                before_width,
                &before_rows[before_index],
                RED,
                BlendRate::highlight(),
            ),
            DiffOp::Common { before_index, .. } => (width, &before_rows[before_index], BLACK, BlendRate::none()),
        };
        match put_diff_pixels(y, &mut img, row_width, token.as_str(), rgb, rate) {
            Ok(()) => {},
            Err(failure) => {
                proof {
                    assert(first_corrupt(ops@, before_rows@, after_rows@, y as int));
                }
                return Err(failure);
            },
        }
        proof {
            let now = raster_bytes(img);
            assert(raster_size(earlier_img).0 == width);
            assert forall|x: int, above: int| 0 <= x < width && 0 <= above < y implies #[trigger] pixel_at(
                now,
                width as int,
                x,
                above,
            ) == shown_pixel(
                ops[above],
                base64_bytes(op_token(ops[above], before_rows@, after_rows@)@)->0,
                x,
                before_width,
                after_width,
            ) by {
                lemma_rows_apart(width as int, x, above, y as int);
                lemma_row_span(width as int, height as int, y as int);
                assert(pixel_at(now, width as int, x, above) =~= pixel_at(earlier, width as int, x, above));
            }
        }
        y += 1;
    }
    Ok(into_image(img))
}

/// Which rows of one pixel buffer equal which rows of another, byte for
/// byte: `(i, j)` stands for row `i` of `after` and row `j` of `before`.
pub open spec fn rows_equal(before: Seq<u8>, before_stride: int, after: Seq<u8>, after_stride: int) -> spec_fn(
    int,
    int,
) -> bool {
    |i: int, j: int|
        0 <= i < row_count(after.len() as int, after_stride) && 0 <= j < row_count(
            before.len() as int,
            before_stride,
        ) && row_bytes(after, after_stride, i) == row_bytes(before, before_stride, j)
}

/// The edit script of the rows of two images, each row four bytes to the
/// pixel.
pub open spec fn image_script(before: DynamicImage, after: DynamicImage) -> Seq<DiffOp> {
    let before_stride = 4 * image_size(before).0;
    let after_stride = 4 * image_size(after).0;
    edit_script(
        rows_equal(image_bytes(before), before_stride, image_bytes(after), after_stride),
        row_count(image_bytes(after).len() as int, after_stride),
        row_count(image_bytes(before).len() as int, before_stride),
    )
}

/// The bytes of the row of an image that an entry of their edit script
/// stands for: for a common row, the one of `before`.
pub open spec fn op_row(op: DiffOp, before: DynamicImage, after: DynamicImage) -> Seq<u8> {
    match op {
        DiffOp::Removed { before_index } => row_bytes(
            image_bytes(before),
            4 * image_size(before).0,
            before_index as int,
        ),
        DiffOp::Common { before_index, .. } => row_bytes(
            image_bytes(before),
            4 * image_size(before).0,
            before_index as int,
        ),
        DiffOp::Added { after_index } => row_bytes(image_bytes(after), 4 * image_size(after).0, after_index as int),
    }
}

/// Whether two images can be diffed: both have a width, a row of either fits
/// the address space, and so does the raster of their diff, whose height is
/// a `u32`.
pub open spec fn drawable(before: DynamicImage, after: DynamicImage) -> bool {
    let before_width = image_size(before).0;
    let after_width = image_size(after).0;
    &&& 0 < before_width
    &&& 0 < after_width
    &&& 4 * before_width <= usize::MAX
    &&& 4 * after_width <= usize::MAX
    &&& image_script(before, after).len() <= u32::MAX
    &&& 4 * wider(before_width, after_width) * image_script(before, after).len() <= isize::MAX
}

/// Whether `img` is the diff of `before` and `after`: as wide as the wider
/// of the two, with one row for each entry of their edit script, in which a
/// removed row of `before` is tinted red, an added row of `after` is tinted
/// green, and a common row is as it is.
pub open spec fn shows_diff(img: DynamicImage, before: DynamicImage, after: DynamicImage) -> bool {
    let before_width = image_size(before).0;
    let after_width = image_size(after).0;
    let width = wider(before_width, after_width);
    let script = image_script(before, after);
    &&& image_size(img) == (width, script.len() as u32)
    &&& image_bytes(img).len() == 4 * width * script.len()
    &&& forall|x: int, y: int|
        0 <= x < width && 0 <= y < script.len() ==> #[trigger] pixel_at(image_bytes(img), width as int, x, y)
            == shown_pixel(script[y], op_row(script[y], before, after), x, before_width, after_width)
}

/// Whether `rows` are the tokens of the rows of `img`, four bytes to the
/// pixel: one for each row, each the base64 text of its row.
pub open spec fn tokens_of(rows: Seq<RowToken>, img: DynamicImage) -> bool {
    let stride = 4 * image_size(img).0;
    &&& rows.len() == row_count(image_bytes(img).len() as int, stride)
    &&& forall|r: int|
        0 <= r < rows.len() ==> (#[trigger] rows[r])@ == base64_text(row_bytes(image_bytes(img), stride, r))
    &&& forall|r: int|
        0 <= r < rows.len() ==> base64_bytes((#[trigger] rows[r])@) == Some(
            row_bytes(image_bytes(img), stride, r),
        )
}

/// The tokens of the rows of an image, four bytes to the pixel.
fn image_rows(img: &DynamicImage, width: u32) -> (rows: Vec<RowToken>)
    requires
        width == image_size(*img).0,
        0 < width,
        4 * width <= usize::MAX,
    ensures
        tokens_of(rows@, *img),
{
    let bytes = image_raw(img);
    extract_rows(bytes.as_slice(), width as usize * 4)
}

/// The tokens of two images are equal where their rows are, byte for byte;
/// so the edit script of the tokens is that of the images, and each of its
/// entries names a row whose token is the base64 text of that row.
proof fn lemma_script_tokens(
    before_rows: Seq<RowToken>,
    after_rows: Seq<RowToken>,
    before: DynamicImage,
    after: DynamicImage,
)
    requires
        tokens_of(before_rows, before),
        tokens_of(after_rows, after),
        before_rows.len() <= usize::MAX,
        after_rows.len() <= usize::MAX,
    ensures
        row_matches(before_rows, after_rows) == rows_equal(
            image_bytes(before),
            4 * image_size(before).0,
            image_bytes(after),
            4 * image_size(after).0,
        ),
        edit_script(row_matches(before_rows, after_rows), after_rows.len() as int, before_rows.len() as int)
            == image_script(before, after),
        ops_in_range(image_script(before, after), before_rows.len() as int, after_rows.len() as int),
        forall|y: int|
            0 <= y < image_script(before, after).len() ==> base64_bytes(
                op_token(#[trigger] image_script(before, after)[y], before_rows, after_rows)@,
            ) == Some(op_row(image_script(before, after)[y], before, after)),
        image_script(before, after).len() >= before_rows.len(),
        image_script(before, after).len() >= after_rows.len(),
{
    let script = image_script(before, after);
    let eq = rows_equal(
        image_bytes(before),
        4 * image_size(before).0,
        image_bytes(after),
        4 * image_size(after).0,
    );
    assert(row_matches(before_rows, after_rows) =~= eq);
    assert forall|y: int| 0 <= y < script.len() implies match #[trigger] script[y] {
        DiffOp::Removed { before_index } => before_index < before_rows.len(),
        DiffOp::Common { before_index, after_index } => before_index < before_rows.len() && after_index
            < after_rows.len(),
        DiffOp::Added { after_index } => after_index < after_rows.len(),
    } by {
        lemma_rows_in_range(eq, after_rows.len() as int, before_rows.len() as int, y);
    }
    lemma_reconstruction(eq, after_rows.len() as int, before_rows.len() as int);
}

/// Why two images were not diffed.
#[derive(Debug, Clone, Copy, PartialEq, Eq, Structural)]
pub enum DiffError {
    /// The bytes of the first image encode no image that can be read.
    UnreadableBefore,
    /// The bytes of the second image encode no image that can be read.
    UnreadableAfter,
    /// An image has no width, or the diff would be too large to hold.
    NotDrawable,
    /// A row token was no base64 text.
    Decode(DecodeFailure),
}

/// Aligns the rows of two images by their tokens and draws the edit script,
/// wherever the images can be diffed.
fn rows_to_image(
    before_rows: &Vec<RowToken>,
    after_rows: &Vec<RowToken>,
    before_w: u32,
    after_w: u32,
    Ghost(before): Ghost<DynamicImage>,
    Ghost(after): Ghost<DynamicImage>,
) -> (result: Result<DynamicImage, DiffError>)
    requires
        before_w == image_size(before).0,
        after_w == image_size(after).0,
        0 < before_w,
        0 < after_w,
        4 * before_w <= usize::MAX,
        4 * after_w <= usize::MAX,
        tokens_of(before_rows@, before),
        tokens_of(after_rows@, after),
    ensures
        drawable(before, after) ==> (result matches Ok(img) && shows_diff(img, before, after)),
        !drawable(before, after) ==> result == Err::<DynamicImage, DiffError>(DiffError::NotDrawable),
{
    let ghost script = image_script(before, after);
    let width = if before_w >= after_w {
        before_w
    } else {
        after_w
    };
    let before_len = before_rows.len();
    let after_len = after_rows.len();
    proof {
        lemma_script_tokens(before_rows@, after_rows@, before, after);
        assert(4 * width * script.len() >= 4 * script.len()) by (nonlinear_arith)
            requires
                1 <= width,
        ;
    }
    if before_len == usize::MAX || after_len == usize::MAX || (before_len > u32::MAX as usize && after_len
        > u32::MAX as usize) {
        return Err(DiffError::NotDrawable);
    }
    let ops = lcs_diff(before_rows.as_slice(), after_rows.as_slice());
    if ops.len() > u32::MAX as usize {
        return Err(DiffError::NotDrawable);
    }
    let span: u128 = 4 * (width as u128);
    let height: u128 = ops.len() as u128;
    proof {
        assert(span * height <= 0x4_0000_0000 * 0x1_0000_0000) by (nonlinear_arith)
            requires
                0 <= span <= 0x4_0000_0000,
                0 <= height <= 0x1_0000_0000,
        ;
        assert(span * height == 4 * width * ops.len()) by (nonlinear_arith)
            requires
                span == 4 * width,
                height == ops.len(),
        ;
    }
    if span * height > isize::MAX as u128 {
        return Err(DiffError::NotDrawable);
    }
    match composite(ops.as_slice(), before_rows.as_slice(), after_rows.as_slice(), before_w, after_w) {
        Ok(img) => Ok(img),
        Err(failure) => Err(DiffError::Decode(failure)),
    }
}

/// Renders the difference of two images as one image: their rows in the
/// order of their edit script, a removed row tinted red, an added row tinted
/// green and a common row as it is, the narrower image padded with
/// transparent pixels.
pub fn diff(before_png: &DynamicImage, after_png: &DynamicImage) -> (result: Result<DynamicImage, DecodeFailure>)
    requires
        drawable(*before_png, *after_png),
    ensures
        result matches Ok(img) && shows_diff(img, *before_png, *after_png),
{
    let after_w = image_dimensions(after_png).0;
    let before_w = image_dimensions(before_png).0;
    let before_rows = image_rows(before_png, before_w);
    let after_rows = image_rows(after_png, after_w);
    match rows_to_image(&before_rows, &after_rows, before_w, after_w, Ghost(*before_png), Ghost(*after_png)) {
        Ok(img) => Ok(img),
        Err(DiffError::Decode(failure)) => Err(failure),
        // Two images that can be diffed are not refused.
        Err(_) => unreached(),
    }
}

/// Renders the difference of two images as `diff` does, wherever they can be
/// diffed, and says so where they cannot.
pub fn try_diff(before_png: &DynamicImage, after_png: &DynamicImage) -> (result: Result<DynamicImage, DiffError>)
    ensures
        drawable(*before_png, *after_png) ==> (result matches Ok(img) && shows_diff(
            img,
            *before_png,
            *after_png,
        )),
        !drawable(*before_png, *after_png) ==> result == Err::<DynamicImage, DiffError>(DiffError::NotDrawable),
{
    let after_w = image_dimensions(after_png).0;
    let before_w = image_dimensions(before_png).0;
    if before_w == 0 || after_w == 0 {
        return Err(DiffError::NotDrawable);
    }
    if before_w as u64 * 4 > usize::MAX as u64 || after_w as u64 * 4 > usize::MAX as u64 {
        return Err(DiffError::NotDrawable);
    }
    let before_rows = image_rows(before_png, before_w);
    let after_rows = image_rows(after_png, after_w);
    rows_to_image(&before_rows, &after_rows, before_w, after_w, Ghost(*before_png), Ghost(*after_png))
}

/// Whether `img` is the image that `encoded` decodes to, by its size and
/// its bytes.
pub open spec fn decodes_to(encoded: Seq<u8>, img: DynamicImage) -> bool {
    &&& decoded_size(encoded) == Some(image_size(img))
    &&& decoded_bytes(encoded) == Some(image_bytes(img))
}

/// Reads two encoded images, diffs them as `try_diff` does, and gives the
/// bytes of the diff, four to the pixel. It fails where one of the two
/// cannot be read, the first before the second, and where the images that
/// were read cannot be diffed.
pub fn diff_slice(before_slice: &[u8], after_slice: &[u8]) -> (result: Result<Vec<u8>, DiffError>)
    ensures
        decoded_size(before_slice@) is None ==> result matches Err(DiffError::UnreadableBefore),
        decoded_size(before_slice@) is Some && decoded_size(after_slice@) is None ==> result matches Err(
            DiffError::UnreadableAfter,
        ),
        decoded_size(before_slice@) is Some && decoded_size(after_slice@) is Some ==> exists|
            before: DynamicImage,
            after: DynamicImage,
        |
            {
                &&& #[trigger] decodes_to(before_slice@, before)
                &&& #[trigger] decodes_to(after_slice@, after)
                &&& drawable(before, after) ==> (result matches Ok(bytes) && exists|img: DynamicImage| #[trigger]
                    shows_diff(img, before, after) && bytes@ == image_bytes(img))
                &&& !drawable(before, after) ==> result matches Err(DiffError::NotDrawable)
            },
{
    let before_png = match read_image(before_slice) {
        Ok(img) => img,
        Err(_) => {
            return Err(DiffError::UnreadableBefore);
        },
    };
    let after_png = match read_image(after_slice) {
        Ok(img) => img,
        Err(_) => {
            return Err(DiffError::UnreadableAfter);
        },
    };
    let drawn = try_diff(&before_png, &after_png);
    proof {
        assert(decodes_to(before_slice@, before_png) && decodes_to(after_slice@, after_png));
    }
    match drawn {
        Ok(img) => {
            proof {
                assert(shows_diff(img, before_png, after_png));
            }
            Ok(image_raw(&img))
        },
        Err(error) => Err(error),
    }
}

} // verus!
