use vstd::arithmetic::div_mod::{lemma_div_pos_is_pos, lemma_mod_bound};
use vstd::prelude::*;

verus! {

/// The raw pixel raster behind a canvas: a wrapper around the `image`
/// crate's RGB buffer, which the verifier treats as opaque. Everything the
/// library states about it goes through `image_pixels` and `image_width`.
#[verifier::external_body]
pub struct Raster {
    /// The wrapped image, open so that an unverified caller can also reach it
    /// with `imageproc` primitives that the library does not wrap.
    pub im: image::RgbImage,
}

/// The pixel grid of a raster image: one entry per raster row (top row
/// first), each holding the `(red, green, blue)` channels of that row's
/// pixels, left to right.
pub uninterp spec fn image_pixels(im: Raster) -> Seq<Seq<(u8, u8, u8)>>;

/// The width a raster image was created with.
pub uninterp spec fn image_width(im: Raster) -> nat;

/// What `imageproc::drawing::draw_filled_circle_mut` leaves in a pixel grid:
/// the filled circle of the given radius and color around the center, clipped
/// to the grid bounds, over the previous contents.
pub uninterp spec fn circle_filled(
    pixels: Seq<Seq<(u8, u8, u8)>>,
    cx: int,
    cy: int,
    radius: int,
    rgb: (u8, u8, u8),
) -> Seq<Seq<(u8, u8, u8)>>;

/// A pixel grid is rectangular: every row has exactly the image's width.
pub open spec fn image_rect(im: Raster) -> bool {
    forall|y: int|
        0 <= y < image_pixels(im).len() ==> (#[trigger] image_pixels(im)[y]).len()
            == image_width(im)
}

/// Relies on `image::ImageBuffer::new`: a fresh raster of the given size with
/// every sample zeroed, that is all black. It panics when the buffer length
/// overflows `usize`, so that case is required away.
#[verifier::external_body]
pub(crate) fn img_new(width: u32, height: u32) -> (r: Raster)
    requires
        3 * (width as int) * (height as int) <= usize::MAX,
    ensures
        image_width(r) == width,
        image_pixels(r).len() == height,
        image_rect(r),
        forall|y: int, x: int|
            0 <= y < height && 0 <= x < width ==> #[trigger] image_pixels(r)[y][x] == (
            0u8,
            0u8,
            0u8,
            ),
{
    Raster { im: image::RgbImage::new(width, height) }
}

/// Relies on `image::ImageBuffer::width`.
#[verifier::external_body]
pub(crate) fn img_width(im: &Raster) -> (r: u32)
    ensures
        r as nat == image_width(*im),
{
    im.im.width()
}

/// Relies on `image::ImageBuffer::height`: the number of pixel rows.
#[verifier::external_body]
pub(crate) fn img_height(im: &Raster) -> (r: u32)
    ensures
        r as nat == image_pixels(*im).len(),
{
    im.im.height()
}

/// Relies on `image::ImageBuffer::get_pixel`: the channels of the pixel at
/// `(x, y)`. It panics outside the bounds, so the bounds are required here.
#[verifier::external_body]
pub(crate) fn img_get_pixel(im: &Raster, x: u32, y: u32) -> (r: (u8, u8, u8))
    requires
        (y as int) < image_pixels(*im).len(),
        (x as int) < image_pixels(*im)[y as int].len(),
    ensures
        r == image_pixels(*im)[y as int][x as int],
{
    let p = im.im.get_pixel(x, y);
    (p.0[0], p.0[1], p.0[2])
}

/// Relies on `imageproc::drawing::draw_filled_circle_mut`: draws as much of
/// the filled circle as lies inside the image bounds, in place, leaving the
/// image size unchanged. The argument bounds keep its `i32` arithmetic and
/// its single-precision endpoints exact.
#[verifier::external_body]
pub(crate) fn img_fill_circle(
    im: &mut Raster,
    cx: i32,
    cy: i32,
    radius: i32,
    rgb: [u8; 3],
)
    requires
        -1048576 <= cx <= 1048576,
        -1048576 <= cy <= 1048576,
        -1048576 <= radius <= 1048576,
    ensures
        image_pixels(*final(im)) == circle_filled(
            image_pixels(*old(im)),
            cx as int,
            cy as int,
            radius as int,
            (rgb[0], rgb[1], rgb[2]),
        ),
        image_width(*final(im)) == image_width(*old(im)),
        image_pixels(*final(im)).len() == image_pixels(*old(im)).len(),
        image_rect(*old(im)) ==> image_rect(*final(im)),
{
    imageproc::drawing::draw_filled_circle_mut(&mut im.im, (cx, cy), radius, image::Rgb(rgb));
}

/// A packed 24-bit color: red in the high byte, then green, then blue.
pub open spec fn spec_pack(p: (u8, u8, u8)) -> u32 {
    ((p.0 as u32) << 16) | ((p.1 as u32) << 8) | (p.2 as u32)
}

/// The packed-color buffer that a rectangular pixel grid of width `w`
/// flattens to, row-major.
pub open spec fn rasterized(pixels: Seq<Seq<(u8, u8, u8)>>, w: int) -> Seq<u32> {
    Seq::new((pixels.len() * w) as nat, |i: int| spec_pack(pixels[i / w][i % w]))
}

/// Flattening is exact: a grid uniformly filled with one color flattens to a
/// buffer that holds the packed form of that color in every entry.
pub proof fn lemma_rasterized_uniform(pixels: Seq<Seq<(u8, u8, u8)>>, w: int, color: (u8, u8, u8))
    requires
        w > 0,
        forall|y: int| 0 <= y < pixels.len() ==> (#[trigger] pixels[y]).len() == w,
        forall|y: int, x: int|
            0 <= y < pixels.len() && 0 <= x < w ==> #[trigger] pixels[y][x] == color,
    ensures
        rasterized(pixels, w).len() == pixels.len() * w,
        forall|i: int|
            0 <= i < pixels.len() * w ==> #[trigger] rasterized(pixels, w)[i] == spec_pack(color),
{
    assert forall|i: int| 0 <= i < pixels.len() * w implies #[trigger] rasterized(pixels, w)[i]
        == spec_pack(color) by {
        lemma_div_pos_is_pos(i, w);
        crate::mapper::lemma_div_below(i, pixels.len() as int, w);
        lemma_mod_bound(i, w);
        assert(pixels[i / w][i % w] == color);
    }
}

/// Flattening is a function of the pixel grid alone: two buffers flattened
/// from the same grid are equal, which is why resynchronizing twice with no
/// intervening raster change changes nothing.
pub proof fn lemma_rasterize_deterministic(
    b1: Seq<u32>,
    b2: Seq<u32>,
    pixels: Seq<Seq<(u8, u8, u8)>>,
    w: int,
)
    requires
        b1 == rasterized(pixels, w),
        b2 == rasterized(pixels, w),
    ensures
        b1 == b2,
{
}

} // verus!
