use plotcanvas::canvas::Canvas;
use plotcanvas::pixl::Pixl;

fn packed(r: u32, g: u32, b: u32) -> u32 {
    (r << 16) | (g << 8) | b
}

#[test]
fn new_dimensions() {
    let c = Canvas::new(4, 5);
    assert_eq!(c.rows, 4);
    assert_eq!(c.cols, 5);
    assert_eq!(c.cells.len(), 20);
    assert_eq!(c.image.im.width(), 5);
    assert_eq!(c.image.im.height(), 4);
    assert!(c.cells.iter().all(|&v| v == 0));
}

#[test]
fn clear_resets_both_buffers() {
    let mut c = Canvas::new(3, 3);
    c.draw_pixl(1, 1, [10, 20, 30]);
    c.clear();
    assert_eq!(c.cells.len(), 9);
    assert!(c.cells.iter().all(|&v| v == 0));
    assert_eq!(c.image.im.width(), 3);
    assert_eq!(c.image.im.height(), 3);
    assert_eq!(c.pixl, Pixl::default_pixl(1, 1, 3, 3));
    let buf = Canvas::as_u32_buffer(&c.image);
    assert!(buf.iter().all(|&v| v == 0));
}

#[test]
fn draw_pixl_out_of_range_is_noop() {
    let mut c = Canvas::new(3, 3);
    c.draw_pixl(0, 0, [1, 2, 3]);
    let before = c.cells.clone();
    c.draw_pixl(3, 0, [9, 9, 9]);
    c.draw_pixl(0, 3, [9, 9, 9]);
    c.draw_pixl(100, 100, [9, 9, 9]);
    assert_eq!(c.cells, before);
}

#[test]
fn draw_pixl_packs_whole_block() {
    let mut c = Canvas::new(4, 4);
    c.pixl = Pixl::default_pixl(2, 2, 2, 2);
    c.draw_pixl(1, 0, [0x11, 0x22, 0x33]);
    let p = packed(0x11, 0x22, 0x33);
    for i in 0..16 {
        let rr = i / 4;
        let cc = i % 4;
        if rr >= 2 && cc < 2 {
            assert_eq!(c.cells[i], p, "entry {} should be packed", i);
        } else {
            assert_eq!(c.cells[i], 0, "entry {} should be untouched", i);
        }
    }
}

#[test]
fn draw_pixl_packed_value_exact() {
    let mut c = Canvas::new(1, 1);
    c.draw_pixl(0, 0, [255, 128, 1]);
    assert_eq!(c.cells[0], (255u32 << 16) | (128u32 << 8) | 1u32);
    assert_eq!(c.cells[0], 0xFF8001);
}

#[test]
fn border_alters_only_outer_ring() {
    let mut c = Canvas::new(4, 4);
    c.draw_pixl(1, 1, [1, 1, 1]);
    let interior = c.cells[1 * 4 + 1];
    c.add_border([5, 6, 7]);
    let p = packed(5, 6, 7);
    for r in 0..4 {
        for cc in 0..4 {
            let v = c.cells[r * 4 + cc];
            if r == 0 || r == 3 || cc == 0 || cc == 3 {
                assert_eq!(v, p, "ring cell ({}, {})", r, cc);
            }
        }
    }
    assert_eq!(c.cells[1 * 4 + 1], interior);
    assert_eq!(c.cells[1 * 4 + 2], 0);
    assert_eq!(c.cells[2 * 4 + 1], 0);
    assert_eq!(c.cells[2 * 4 + 2], 0);
}

#[test]
fn border_on_blocky_grid() {
    let mut c = Canvas::new(6, 6);
    c.pixl = Pixl::default_pixl(2, 2, 3, 3);
    c.add_border([1, 0, 0]);
    let p = packed(1, 0, 0);
    for i in 0..36 {
        let rr = i / 6;
        let cc = i % 6;
        let cell_r = rr / 2;
        let cell_c = cc / 2;
        if cell_r == 0 || cell_r == 2 || cell_c == 0 || cell_c == 2 {
            assert_eq!(c.cells[i], p);
        } else {
            assert_eq!(c.cells[i], 0);
        }
    }
}
