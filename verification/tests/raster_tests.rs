use image::{Rgb, RgbImage};
use plotcanvas::canvas::Canvas;
use plotcanvas::raster::Raster;

#[test]
fn rasterize_uniform_fill_exact() {
    let r = Raster { im: RgbImage::from_pixel(3, 2, Rgb([7, 8, 9])) };
    let buf = Canvas::as_u32_buffer(&r);
    assert_eq!(buf.len(), 6);
    let p = (7u32 << 16) | (8u32 << 8) | 9u32;
    assert!(buf.iter().all(|&v| v == p));
}

#[test]
fn rasterize_twice_yields_same_buffer() {
    let mut im = RgbImage::new(4, 4);
    im.put_pixel(1, 2, Rgb([250, 1, 17]));
    im.put_pixel(3, 0, Rgb([0, 255, 0]));
    let r = Raster { im };
    let b1 = Canvas::as_u32_buffer(&r);
    let b2 = Canvas::as_u32_buffer(&r);
    assert_eq!(b1, b2);
    assert_eq!(b1[2 * 4 + 1], (250u32 << 16) | (1u32 << 8) | 17u32);
    assert_eq!(b1[0 * 4 + 3], 255u32 << 8);
    assert_eq!(b1[0], 0);
}

#[test]
fn rasterize_row_major_order() {
    let mut im = RgbImage::new(2, 2);
    im.put_pixel(0, 0, Rgb([1, 0, 0]));
    im.put_pixel(1, 0, Rgb([2, 0, 0]));
    im.put_pixel(0, 1, Rgb([3, 0, 0]));
    im.put_pixel(1, 1, Rgb([4, 0, 0]));
    let r = Raster { im };
    let buf = Canvas::as_u32_buffer(&r);
    assert_eq!(
        buf,
        vec![1u32 << 16, 2u32 << 16, 3u32 << 16, 4u32 << 16]
    );
}
