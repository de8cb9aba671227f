//! Rasters of the `image` crate, as far as the compositor reads and fills
//! them.

use image::{DynamicImage, ImageError, Rgba, RgbaImage};
use vstd::prelude::*;

verus! {

/// A raster of four-channel pixels that is being drawn: an
/// `image::RgbaImage`, which is filled pixel by pixel.
#[verifier::external_body]
pub struct Canvas {
    buffer: RgbaImage,
}

/// `image::DynamicImage`, a raster in one of several pixel formats.
#[verifier::external_type_specification]
#[verifier::external_body]
pub struct ExDynamicImage(DynamicImage);

/// `image::ImageError`, as the reader of encoded images returns it.
#[verifier::external_type_specification]
#[verifier::external_body]
pub struct ExImageError(ImageError);

/// The channel values that a raster holds, row by row from the top and in
/// each row pixel by pixel from the left, four to a pixel.
pub uninterp spec fn raster_bytes(img: Canvas) -> Seq<u8>;

/// The width and the height of a raster, in pixels.
pub uninterp spec fn raster_size(img: Canvas) -> (u32, u32);

/// The bytes that an image holds, in the order in which it stores them.
pub uninterp spec fn image_bytes(img: DynamicImage) -> Seq<u8>;

/// The width and the height of an image, in pixels.
pub uninterp spec fn image_size(img: DynamicImage) -> (u32, u32);

/// Where the four channel values of the pixel at `(x, y)` begin in a raster
/// that is `width` pixels wide.
pub open spec fn pixel_offset(width: int, x: int, y: int) -> int {
    4 * (y * width + x)
}

/// `bytes` with the four channel values of `pixel` written from `at` on.
pub open spec fn with_pixel(bytes: Seq<u8>, at: int, pixel: Seq<u8>) -> Seq<u8> {
    bytes.update(at, pixel[0]).update(at + 1, pixel[1]).update(at + 2, pixel[2]).update(at + 3, pixel[3])
}

/// `ImageBuffer::new`: a raster of the given size with every channel of every
/// pixel zero. The call panics where the number of channel values does not
/// fit a `Vec`, which `requires` leaves out.
#[verifier::external_body]
pub(crate) fn new_raster(width: u32, height: u32) -> (img: Canvas)
    requires
        4 * width * height <= isize::MAX,
    ensures
        raster_size(img) == (width, height),
        raster_bytes(img) == Seq::new((4 * width * height) as nat, |k: int| 0u8),
{
    Canvas { buffer: RgbaImage::new(width, height) }
}

/// `ImageBuffer::dimensions`: the width and height that the raster was made
/// with. No raster holds fewer channel values than its size asks for, and
/// they are held in a `Vec`.
#[verifier::external_body]
pub(crate) fn raster_dimensions(img: &Canvas) -> (size: (u32, u32))
    ensures
        size == raster_size(*img),
        4 * size.0 * size.1 <= raster_bytes(*img).len() <= usize::MAX,
{
    img.buffer.dimensions()
}

/// `ImageBuffer::put_pixel`: writes the four channel values of one pixel and
/// leaves the rest of the raster as it is. The call panics where `(x, y)` is
/// outside the raster, which `requires` leaves out.
#[verifier::external_body]
pub(crate) fn put_pixel(img: &mut Canvas, x: u32, y: u32, pixel: [u8; 4])
    requires
        x < raster_size(*old(img)).0,
        y < raster_size(*old(img)).1,
    ensures
        raster_size(*final(img)) == raster_size(*old(img)),
        raster_bytes(*final(img)) == with_pixel(
            raster_bytes(*old(img)),
            pixel_offset(raster_size(*old(img)).0 as int, x as int, y as int),
            pixel@,
        ),
{
    img.buffer.put_pixel(x, y, Rgba(pixel))
}

/// `GenericImageView::dimensions` of a `DynamicImage`: its width and height.
#[verifier::external_body]
pub(crate) fn image_dimensions(img: &DynamicImage) -> (size: (u32, u32))
    ensures
        size == image_size(*img),
{
    image::GenericImageView::dimensions(img)
}

/// `DynamicImage::as_bytes`, copied into a `Vec`: the bytes of the image.
#[verifier::external_body]
pub(crate) fn image_raw(img: &DynamicImage) -> (bytes: Vec<u8>)
    ensures
        bytes@ == image_bytes(*img),
{
    img.as_bytes().to_vec()
}

/// `DynamicImage::ImageRgba8`: the raster as an image of that format, with
/// the size and the bytes of the raster.
#[verifier::external_body]
pub(crate) fn into_image(raster: Canvas) -> (img: DynamicImage)
    ensures
        image_size(img) == raster_size(raster),
        image_bytes(img) == raster_bytes(raster),
{
    DynamicImage::ImageRgba8(raster.buffer)
}

/// The size of the image that `encoded` decodes to, where the reader of
/// encoded images can read it.
pub uninterp spec fn decoded_size(encoded: Seq<u8>) -> Option<(u32, u32)>;

/// The bytes of the image that `encoded` decodes to, where the reader of
/// encoded images can read it.
pub uninterp spec fn decoded_bytes(encoded: Seq<u8>) -> Option<Seq<u8>>;

/// `image::io::Reader` over the bytes, with the format guessed from their
/// start, and its `decode`: the image that the bytes encode, or the error
/// where they encode none that the reader can read. What is read depends on
/// the bytes alone; nothing is claimed of which bytes can be read, nor of
/// what image they give.
#[verifier::external_body]
pub(crate) fn read_image(bytes: &[u8]) -> (read: Result<DynamicImage, ImageError>)
    ensures
        read matches Ok(img) ==> decoded_size(bytes@) == Some(image_size(img)) && decoded_bytes(bytes@) == Some(
            image_bytes(img),
        ),
        read is Err ==> decoded_size(bytes@) is None && decoded_bytes(bytes@) is None,
{
    image::io::Reader::new(std::io::Cursor::new(bytes)).with_guessed_format()?.decode()
}

} // verus!
