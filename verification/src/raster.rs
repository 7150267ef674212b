//! Pixel buffers of the `image` crate, as far as the renderer fills and
//! stitches them.
//!
//! Verus does not look inside an `ImageBuffer`. What this crate relies on is
//! stated here, once, over two names per buffer type: its dimensions and the
//! colors of its pixels.

use vstd::prelude::*;
use image::{GenericImage, ImageBuffer, ImageError, Rgb, Rgba};

verus! {

/// `image::ImageError`, carried through as it comes; nothing is read from it.
#[verifier::external_type_specification]
#[verifier::external_body]
pub struct ExImageError(ImageError);

/// An `image::RgbImage`: what a band worker paints.
#[verifier::external_body]
pub struct RgbRaster {
    pub image: ImageBuffer<Rgb<u8>, Vec<u8>>,
}

/// An `image::RgbaImage`: a decoded band, or the stitched picture.
#[verifier::external_body]
pub struct RgbaRaster {
    pub image: ImageBuffer<Rgba<u8>, Vec<u8>>,
}

/// Width and height, in pixels, of an RGB buffer.
pub uninterp spec fn rgb_size(raster: RgbRaster) -> (u32, u32);

/// The colors of an RGB buffer: for each pixel `(x, y)` inside its
/// dimensions, the channel values red, green, blue.
pub uninterp spec fn rgb_pixels(raster: RgbRaster) -> Map<(int, int), Seq<u8>>;

/// Width and height, in pixels, of an RGBA buffer.
pub uninterp spec fn rgba_size(raster: RgbaRaster) -> (u32, u32);

/// The colors of an RGBA buffer: for each pixel `(x, y)` inside its
/// dimensions, the channel values red, green, blue, alpha.
pub uninterp spec fn rgba_pixels(raster: RgbaRaster) -> Map<(int, int), Seq<u8>>;

/// The pixels of a `width` by `height` buffer in which every channel of every
/// pixel is zero.
pub open spec fn blank(width: u32, height: u32, channels: nat) -> Map<(int, int), Seq<u8>> {
    Map::new(
        |at: (int, int)| 0 <= at.0 < width && 0 <= at.1 < height,
        |at: (int, int)| Seq::new(channels, |c: int| 0u8),
    )
}

/// Whether a buffer of dimensions `size` lies inside one of dimensions `onto`
/// when its top-left corner is put at `(x, y)`.
pub open spec fn fits(onto: (u32, u32), size: (u32, u32), x: int, y: int) -> bool {
    x + size.0 <= onto.0 && y + size.1 <= onto.1
}

/// The pixels `under`, with the `size.0` by `size.1` pixels `over` laid on
/// top, top-left corner at `(x, y)`.
pub open spec fn overlaid(
    under: Map<(int, int), Seq<u8>>,
    over: Map<(int, int), Seq<u8>>,
    size: (u32, u32),
    x: int,
    y: int,
) -> Map<(int, int), Seq<u8>> {
    Map::new(
        |at: (int, int)| under.dom().contains(at),
        |at: (int, int)|
            if x <= at.0 < x + size.0 && y <= at.1 < y + size.1 {
                over[(at.0 - x, at.1 - y)]
            } else {
                under[at]
            },
    )
}

/// `ImageBuffer::new` for RGB: a buffer of the given dimensions with every
/// channel zero. It panics where the buffer's byte length overflows, which
/// the precondition rules out.
#[verifier::external_body]
pub(crate) fn rgb_new(width: u32, height: u32) -> (raster: RgbRaster)
    requires
        3 * width * height <= isize::MAX,
    ensures
        rgb_size(raster) == (width, height),
        rgb_pixels(raster) == blank(width, height, 3),
{
    RgbRaster { image: ImageBuffer::new(width, height) }
}

/// `ImageBuffer::put_pixel` for RGB: the pixel at `(x, y)` takes the given
/// channel values and nothing else changes. It panics outside the buffer's
/// dimensions, which the precondition rules out.
#[verifier::external_body]
pub(crate) fn rgb_put_pixel(raster: &mut RgbRaster, x: u32, y: u32, color: [u8; 3])
    requires
        x < rgb_size(*old(raster)).0,
        y < rgb_size(*old(raster)).1,
    ensures
        rgb_size(*final(raster)) == rgb_size(*old(raster)),
        rgb_pixels(*final(raster)) == rgb_pixels(*old(raster)).insert(
            (x as int, y as int),
            color@,
        ),
{
    raster.image.put_pixel(x, y, Rgb(color))
}

/// `ImageBuffer::new` for RGBA: a buffer of the given dimensions with every
/// channel zero. It panics where the buffer's byte length overflows, which
/// the precondition rules out.
#[verifier::external_body]
pub(crate) fn rgba_new(width: u32, height: u32) -> (raster: RgbaRaster)
    requires
        4 * width * height <= isize::MAX,
    ensures
        rgba_size(raster) == (width, height),
        rgba_pixels(raster) == blank(width, height, 4),
{
    RgbaRaster { image: ImageBuffer::new(width, height) }
}

/// `ImageBuffer::dimensions` for RGBA.
#[verifier::external_body]
pub(crate) fn rgba_dimensions(raster: &RgbaRaster) -> (size: (u32, u32))
    ensures
        size == rgba_size(*raster),
{
    raster.image.dimensions()
}

/// `GenericImage::copy_from` between RGBA buffers: where `other` fits into
/// `raster` with its top-left corner at `(x, y)`, its pixels replace those
/// under them; where it does not fit, the call reports an error and changes
/// nothing. The dimensions stay as they are.
#[verifier::external_body]
pub(crate) fn rgba_copy_from(raster: &mut RgbaRaster, other: &RgbaRaster, x: u32, y: u32) -> (done:
    Result<(), ImageError>)
    ensures
        rgba_size(*final(raster)) == rgba_size(*old(raster)),
        done.is_ok() == fits(rgba_size(*old(raster)), rgba_size(*other), x as int, y as int),
        rgba_pixels(*final(raster)) == (if done.is_ok() {
            overlaid(
                rgba_pixels(*old(raster)),
                rgba_pixels(*other),
                rgba_size(*other),
                x as int,
                y as int,
            )
        } else {
            rgba_pixels(*old(raster))
        }),
{
    raster.image.copy_from(&other.image, x, y)
}

} // verus!
