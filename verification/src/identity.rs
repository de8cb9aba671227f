//! An image diffed against itself.

use crate::blend::{lemma_no_rate_keeps, BLACK};
use crate::canvas::{image_bytes, image_size, pixel_offset};
use crate::laws::lemma_identity;
use crate::ops::common_run;
use crate::render::{image_script, pixel_at, rows_equal, shows_diff, source_pixel};
use crate::rows::{lemma_row_count, row_bytes};
use image::DynamicImage;
use vstd::prelude::*;

verus! {

/// Every byte of a raster belongs to one pixel of it.
proof fn lemma_byte_in_pixel(width: int, height: int, k: int) -> (at: (int, int, int))
    requires
        0 < width,
        0 <= k < 4 * width * height,
    ensures
        0 <= at.0 < width,
        0 <= at.1 < height,
        0 <= at.2 < 4,
        k == pixel_offset(width, at.0, at.1) + at.2,
{
    let q = k / 4;
    let c = k % 4;
    let y = q / width;
    let x = q % width;
    vstd::arithmetic::div_mod::lemma_fundamental_div_mod(q, width);
    vstd::arithmetic::div_mod::lemma_mod_bound(q, width);
    assert(width * y == y * width) by (nonlinear_arith);
    assert(0 <= y) by (nonlinear_arith)
        requires
            0 <= q,
            0 < width,
            y == q / width,
    ;
    assert(y < height) by (nonlinear_arith)
        requires
            q == y * width + x,
            0 <= x,
            4 * q < 4 * width * height,
            0 < width,
    ;
    (x, y, c)
}

/// Identity: of an image of four-byte pixels diffed against itself, the
/// edit script has nothing but common rows, one for each row of the image,
/// and the diff has the size and the bytes of the image.
pub proof fn lemma_diff_of_itself(img: DynamicImage, out: DynamicImage)
    requires
        0 < image_size(img).0,
        image_bytes(img).len() == 4 * image_size(img).0 * image_size(img).1,
        shows_diff(out, img, img),
    ensures
        image_script(img, img) == common_run(0, 0, image_size(img).1 as int),
        image_size(out) == image_size(img),
        image_bytes(out) == image_bytes(img),
{
    let width = image_size(img).0 as int;
    let height = image_size(img).1 as int;
    let stride = 4 * width;
    let bytes = image_bytes(img);
    let drawn = image_bytes(out);
    let eq = rows_equal(bytes, stride, bytes, stride);
    assert(bytes.len() == height * stride + 0) by (nonlinear_arith)
        requires
            bytes.len() == 4 * width * height,
            stride == 4 * width,
    ;
    lemma_row_count(bytes.len() as int, stride, height, 0);
    lemma_identity(eq, height);
    assert forall|x: int, y: int| 0 <= x < width && 0 <= y < height implies #[trigger] pixel_at(
        drawn,
        width,
        x,
        y,
    ) == pixel_at(bytes, width, x, y) by {
        let row = row_bytes(bytes, stride, y);
        assert((y + 1) * stride <= height * stride) by (nonlinear_arith)
            requires
                y + 1 <= height,
                0 <= stride,
        ;
        assert((y + 1) * stride == y * stride + stride) by (nonlinear_arith);
        assert(0 <= y * stride) by (nonlinear_arith)
            requires
                0 <= y,
                0 <= stride,
        ;
        assert(pixel_offset(width, x, y) == y * stride + 4 * x) by (nonlinear_arith)
            requires
                stride == 4 * width,
        ;
        lemma_no_rate_keeps(source_pixel(row, width, x), BLACK);
    }
    assert forall|k: int| 0 <= k < bytes.len() implies drawn[k] == bytes[k] by {
        let at = lemma_byte_in_pixel(width, height, k);
        let start = pixel_offset(width, at.0, at.1);
        assert(0 <= start && start + 4 <= 4 * width * height) by (nonlinear_arith)
            requires
                start == 4 * (at.1 * width + at.0),
                0 <= at.0 < width,
                0 <= at.1 < height,
        ;
        assert(pixel_at(drawn, width, at.0, at.1)[at.2] == drawn[k]);
    }
}

} // verus!
