use plotcanvas::canvas::Canvas;
use plotcanvas::mapper::{to_domain, to_pixel};
use plotcanvas::pixl::Pixl;

fn packed(r: u32, g: u32, b: u32) -> u32 {
    (r << 16) | (g << 8) | b
}

#[test]
fn mapper_exact_values() {
    assert_eq!(to_pixel(5, 0, 10, 10), 5);
    assert_eq!(to_pixel(1, 0, 10, 4), 0);
    assert_eq!(to_pixel(9, 0, 10, 4), 3);
    assert_eq!(to_pixel(-1, -10, 10, 20), 9);
    assert_eq!(to_domain(3, 0, 10, 4), 7);
    assert_eq!(to_domain(0, -10, 10, 5), -10);
    assert_eq!(to_domain(5, 0, 10, 5), 10);
}

#[test]
fn plot_identity_colors_diagonal() {
    let mut c = Canvas::new(10, 10);
    c.add_plot(|x: i64| x, (0, 10), (0, 10), [9, 9, 9]);
    let p = packed(9, 9, 9);
    for i in 1..9 {
        assert_eq!(c.cells[i * 10 + i], p, "diagonal cell {}", i);
    }
    for r in 0..10i64 {
        for cc in 0..10i64 {
            if (r - cc).abs() > 1 {
                assert_eq!(c.cells[(r * 10 + cc) as usize], 0, "cell ({}, {})", r, cc);
            }
        }
    }
}

#[test]
fn plot_skips_columns_outside_range() {
    let mut c = Canvas::new(4, 4);
    // A constant far above the y range: nothing may be drawn.
    c.add_plot(|_x: i64| 100, (0, 4), (0, 4), [9, 9, 9]);
    assert!(c.cells.iter().all(|&v| v == 0));
    // A constant exactly on the upper bound is excluded too.
    c.add_plot(|_x: i64| 4, (0, 4), (0, 4), [9, 9, 9]);
    assert!(c.cells.iter().all(|&v| v == 0));
}

#[test]
fn data_point_on_boundary_excluded() {
    let mut c = Canvas::new(5, 5);
    let data = vec![(5i64, 2i64), (0, 2), (2, 5), (2, 0)];
    c.graphics_plot_data(&data, (0, 5), (0, 5), [9, 9, 9], 10);
    assert!(c.cells.iter().all(|&v| v == 0));
}

#[test]
fn data_point_inside_is_drawn() {
    let mut c = Canvas::new(5, 5);
    let data = vec![(2i64, 2i64)];
    c.graphics_plot_data(&data, (0, 5), (0, 5), [1, 2, 3], 1);
    let p = packed(1, 2, 3);
    assert_eq!(c.cells[2 * 5 + 2], p);
    assert_eq!(c.cells[0], 0);
}

#[test]
fn circle_lands_in_cell_block_center() {
    let mut c = Canvas::new(8, 8);
    c.pixl = Pixl::default_pixl(4, 4, 2, 2);
    c.draw_rgb_circle(1, 1, [9, 9, 9], 0);
    let buf = Canvas::as_u32_buffer(&c.image);
    assert_eq!(buf[6 * 8 + 6], packed(9, 9, 9));
    // The cell buffer is untouched until a resynchronization.
    assert_eq!(c.cells[6 * 8 + 6], 0);
    c.cells = Canvas::as_u32_buffer(&c.image);
    assert_eq!(c.cells[6 * 8 + 6], packed(9, 9, 9));
}
