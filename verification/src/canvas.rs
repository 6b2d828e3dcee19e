use crate::mapper::{spec_to_domain, spec_to_pixel, to_domain, to_pixel};
use crate::network::Network;
use crate::pixl::Pixl;
use crate::raster::{
    circle_filled, image_pixels, image_rect, image_width, img_fill_circle, img_get_pixel,
    img_height, img_new, img_width, rasterized, spec_pack, Raster,
};
use vstd::arithmetic::div_mod::{lemma_fundamental_div_mod_converse, lemma_mod_bound};
use vstd::prelude::*;

verus! {

/// The dual-resolution drawing surface: a logical grid of `pixl.rows` by
/// `pixl.cols` cells over a raw raster of `rows` by `cols` pixels, kept both
/// as the packed-color cell buffer `cells` (row-major, the canonical output)
/// and as the raw RGB `image`.
pub struct Canvas {
    pub rows: usize,
    pub cols: usize,
    pub pixl: Pixl,
    pub cells: Vec<u32>,
    pub image: Raster,
}

/// The packed form of a color given as three 8-bit channels widened to `u32`:
/// red shifted into the high byte, then green, then blue.
pub open spec fn pack32(rgb: [u32; 3]) -> u32 {
    (rgb[0] << 16) | (rgb[1] << 8) | rgb[2]
}

/// Cell-buffer entry `i` lies in raster row `i / cols` and raster column
/// `i % cols`; it belongs to logical block `(r, c)` when both land inside
/// that block's rectangle of raw pixels.
pub open spec fn in_block(i: int, r: int, c: int, p: Pixl, cols: int) -> bool {
    &&& r * p.height <= i / cols < (r + 1) * p.height
    &&& c * p.width <= i % cols < (c + 1) * p.width
}

/// What a block fill leaves in the cell buffer: every entry of block `(r, c)`
/// holds the packed color, the rest is unchanged; a request outside the
/// logical grid changes nothing.
pub open spec fn spec_draw_pixl(
    cells: Seq<u32>,
    r: int,
    c: int,
    p: Pixl,
    cols: int,
    rgb: [u32; 3],
) -> Seq<u32> {
    if r >= p.rows || c >= p.cols {
        cells
    } else {
        Seq::new(
            cells.len(),
            |i: int|
                if in_block(i, r, c, p, cols) {
                    pack32(rgb)
                } else {
                    cells[i]
                },
        )
    }
}

/// The raster positions a block fill has already passed: every raster row
/// before `row_lim`, and in raster row `row_lim` the columns before
/// `col_lim`.
spec fn block_prefix(i: int, cols: int, row_lim: int, col_lim: int) -> bool {
    i / cols < row_lim || (i / cols == row_lim && i % cols < col_lim)
}

/// The logical cell row of cell-buffer entry `i`: its raster row, divided by
/// the block height.
pub open spec fn cell_row(i: int, p: Pixl, cols: int) -> int {
    (i / cols) / (p.height as int)
}

/// The logical cell column of cell-buffer entry `i`: its raster column,
/// divided by the block width.
pub open spec fn cell_col(i: int, p: Pixl, cols: int) -> int {
    (i % cols) / (p.width as int)
}

/// Cell-buffer entry `i` lies in the outermost ring of logical cells.
pub open spec fn on_border(i: int, p: Pixl, cols: int) -> bool {
    ||| cell_row(i, p, cols) == 0
    ||| cell_row(i, p, cols) == p.rows - 1
    ||| cell_col(i, p, cols) == 0
    ||| cell_col(i, p, cols) == p.cols - 1
}

/// The cell buffer after the first border pass: the top and bottom cell
/// rows, limited to the logical columns before `lim`, packed with the color.
spec fn ring_cols_filled(
    cells: Seq<u32>,
    p: Pixl,
    cols: int,
    lim: int,
    rgb: [u32; 3],
) -> Seq<u32> {
    Seq::new(
        cells.len(),
        |i: int|
            if (cell_row(i, p, cols) == 0 || cell_row(i, p, cols) == p.rows - 1) && cell_col(
                i,
                p,
                cols,
            ) < lim {
                pack32(rgb)
            } else {
                cells[i]
            },
    )
}

/// The cell buffer after both border passes: the top and bottom cell rows
/// whole, and of the leftmost and rightmost cell columns the logical rows
/// before `lim`, packed with the color.
pub open spec fn ring_filled(cells: Seq<u32>, p: Pixl, cols: int, lim: int, rgb: [u32; 3]) -> Seq<
    u32,
> {
    Seq::new(
        cells.len(),
        |i: int|
            if cell_row(i, p, cols) == 0 || cell_row(i, p, cols) == p.rows - 1 || ((cell_col(
                i,
                p,
                cols,
            ) == 0 || cell_col(i, p, cols) == p.cols - 1) && cell_row(i, p, cols) < lim) {
                pack32(rgb)
            } else {
                cells[i]
            },
    )
}

/// What drawing the border leaves in the cell buffer: the full outermost
/// ring packed with the color, everything else unchanged.
pub open spec fn spec_add_border(cells: Seq<u32>, p: Pixl, cols: int, rgb: [u32; 3]) -> Seq<u32> {
    ring_filled(cells, p, cols, p.rows as int, rgb)
}

/// The border alters exactly the outermost ring of logical cells: after it,
/// a cell-buffer entry holds the packed color when its logical cell lies on
/// the ring, and its previous value otherwise.
pub proof fn lemma_add_border_cell(cells: Seq<u32>, p: Pixl, cols: int, rows: int, rgb: [u32; 3], i: int)
    requires
        p.wf(),
        p.cols * p.width == cols,
        p.rows * p.height == rows,
        cells.len() == rows * cols,
        0 <= i < cells.len(),
    ensures
        spec_add_border(cells, p, cols, rgb)[i] == (if on_border(i, p, cols) {
            pack32(rgb)
        } else {
            cells[i]
        }),
{
    lemma_cell_in_grid(i, p, cols, rows);
}

/// A block fill touches exactly its own block: after an in-grid fill at
/// `(r, c)`, a cell-buffer entry holds the packed color when its logical
/// cell is `(r, c)`, and its previous value otherwise — no other block is
/// altered.
pub proof fn lemma_draw_pixl_cell(
    cells: Seq<u32>,
    r: int,
    c: int,
    p: Pixl,
    cols: int,
    rows: int,
    rgb: [u32; 3],
    i: int,
)
    requires
        p.wf(),
        p.cols * p.width == cols,
        p.rows * p.height == rows,
        cells.len() == rows * cols,
        0 <= r < p.rows,
        0 <= c < p.cols,
        0 <= i < cells.len(),
    ensures
        spec_draw_pixl(cells, r, c, p, cols, rgb)[i] == (if cell_row(i, p, cols) == r && cell_col(
            i,
            p,
            cols,
        ) == c {
            pack32(rgb)
        } else {
            cells[i]
        }),
{
    lemma_in_block_is_cell(i, r, c, p, cols, rows);
}

/// Division pins a value to a window: `q / h == r` exactly when `q` lies in
/// `[r * h, (r + 1) * h)`.
proof fn lemma_div_block(q: int, r: int, h: int)
    requires
        h > 0,
        q >= 0,
    ensures
        (q / h == r) <==> (r * h <= q < (r + 1) * h),
{
    assert((r + 1) * h == r * h + h) by (nonlinear_arith);
    if r * h <= q < (r + 1) * h {
        lemma_fundamental_div_mod_converse(q, h, r, q - r * h);
    }
    if q / h == r {
        vstd::arithmetic::div_mod::lemma_fundamental_div_mod(q, h);
        lemma_mod_bound(q, h);
        assert(h * r == r * h) by (nonlinear_arith);
    }
}

/// Within the raster, membership in block `(r, c)` is exactly having `r` and
/// `c` as the logical cell coordinates.
proof fn lemma_in_block_is_cell(i: int, r: int, c: int, p: Pixl, cols: int, rows: int)
    requires
        p.wf(),
        p.cols * p.width == cols,
        p.rows * p.height == rows,
        0 <= i < rows * cols,
    ensures
        in_block(i, r, c, p, cols) <==> (cell_row(i, p, cols) == r && cell_col(i, p, cols) == c),
{
    lemma_mod_bound(i, cols);
    vstd::arithmetic::div_mod::lemma_div_pos_is_pos(i, cols);
    crate::mapper::lemma_div_below(i, rows, cols);
    lemma_div_block(i / cols, r, p.height as int);
    lemma_div_block(i % cols, c, p.width as int);
}

/// Every cell-buffer entry has its logical cell inside the grid.
proof fn lemma_cell_in_grid(i: int, p: Pixl, cols: int, rows: int)
    requires
        p.wf(),
        p.cols * p.width == cols,
        p.rows * p.height == rows,
        0 <= i < rows * cols,
    ensures
        0 <= cell_row(i, p, cols) < p.rows,
        0 <= cell_col(i, p, cols) < p.cols,
{
    lemma_mod_bound(i, cols);
    vstd::arithmetic::div_mod::lemma_div_pos_is_pos(i, cols);
    crate::mapper::lemma_div_below(i, rows, cols);
    crate::mapper::lemma_div_below(i / cols, p.rows as int, p.height as int);
    crate::mapper::lemma_div_below(i % cols, p.cols as int, p.width as int);
    vstd::arithmetic::div_mod::lemma_div_pos_is_pos(i / cols, p.height as int);
    vstd::arithmetic::div_mod::lemma_div_pos_is_pos(i % cols, p.width as int);
}

/// A vector holding `n` copies of `val`.
fn filled_u32(n: usize, val: u32) -> (r: Vec<u32>)
    ensures
        r@.len() == n,
        forall|i: int| 0 <= i < n ==> r@[i] == val,
{
    let mut v: Vec<u32> = Vec::new();
    let mut i: usize = 0;
    while i < n
        invariant
            i <= n,
            v@.len() == i,
            forall|j: int| 0 <= j < i ==> v@[j] == val,
        decreases n - i,
    {
        v.push(val);
        i += 1;
    }
    v
}

/// One scatter step: a datum strictly inside both ranges becomes a filled
/// circle at the center of its mapped cell's raster block; a datum on or
/// outside either boundary leaves the raster untouched.
pub open spec fn spec_plot_point(
    pixels: Seq<Seq<(u8, u8, u8)>>,
    d: (i64, i64),
    x_range: (i64, i64),
    y_range: (i64, i64),
    p: Pixl,
    radius: int,
    rgb: (u8, u8, u8),
) -> Seq<Seq<(u8, u8, u8)>> {
    if x_range.0 < d.0 < x_range.1 && y_range.0 < d.1 < y_range.1 {
        let c = spec_to_pixel(d.0 as int, x_range.0 as int, x_range.1 as int, p.cols as int);
        let r = spec_to_pixel(d.1 as int, y_range.0 as int, y_range.1 as int, p.rows as int);
        circle_filled(
            pixels,
            c * p.width + p.width / 2,
            r * p.height + p.height / 2,
            radius,
            rgb,
        )
    } else {
        pixels
    }
}

/// The raster after the first `k` data points are plotted.
pub open spec fn spec_plot_data(
    pixels: Seq<Seq<(u8, u8, u8)>>,
    data: Seq<(i64, i64)>,
    k: int,
    x_range: (i64, i64),
    y_range: (i64, i64),
    p: Pixl,
    radius: int,
    rgb: (u8, u8, u8),
) -> Seq<Seq<(u8, u8, u8)>>
    decreases k,
{
    if k <= 0 {
        pixels
    } else {
        spec_plot_point(
            spec_plot_data(pixels, data, k - 1, x_range, y_range, p, radius, rgb),
            data[k - 1],
            x_range,
            y_range,
            p,
            radius,
            rgb,
        )
    }
}

/// Boundary exclusion: a datum whose x lies on either end of the x range, or
/// whose y lies on either end of the y range, is never drawn — its scatter
/// step leaves the raster untouched, whatever the radius.
pub proof fn lemma_boundary_point_excluded(
    pixels: Seq<Seq<(u8, u8, u8)>>,
    d: (i64, i64),
    x_range: (i64, i64),
    y_range: (i64, i64),
    p: Pixl,
    radius: int,
    rgb: (u8, u8, u8),
)
    requires
        d.0 == x_range.0 || d.0 == x_range.1 || d.1 == y_range.0 || d.1 == y_range.1,
    ensures
        spec_plot_point(pixels, d, x_range, y_range, p, radius, rgb) == pixels,
{
}

/// The raster after circles are drawn at the first `k` node positions.
pub open spec fn spec_draw_nodes(
    pixels: Seq<Seq<(u8, u8, u8)>>,
    net: Network,
    k: int,
    radius: int,
    rgb: (u8, u8, u8),
) -> Seq<Seq<(u8, u8, u8)>>
    decreases k,
{
    if k <= 0 {
        pixels
    } else {
        circle_filled(
            spec_draw_nodes(pixels, net, k - 1, radius, rgb),
            net.pos_x@[k - 1] as int,
            net.pos_y@[k - 1] as int,
            radius,
            rgb,
        )
    }
}

/// One curve step: a function value strictly inside the y range colors the
/// 2 by 2 square of logical cells at its mapped row and the given column; a
/// value on or outside the range leaves the buffer untouched.
pub open spec fn spec_plot_col(
    cells: Seq<u32>,
    y: i64,
    col: int,
    y_range: (i64, i64),
    p: Pixl,
    cols: int,
    rgb: [u32; 3],
) -> Seq<u32> {
    if y_range.0 < y < y_range.1 {
        let row = spec_to_pixel(y as int, y_range.0 as int, y_range.1 as int, p.rows as int);
        spec_draw_pixl(
            spec_draw_pixl(
                spec_draw_pixl(
                    spec_draw_pixl(cells, row, col, p, cols, rgb),
                    row + 1,
                    col,
                    p,
                    cols,
                    rgb,
                ),
                row,
                col + 1,
                p,
                cols,
                rgb,
            ),
            row + 1,
            col + 1,
            p,
            cols,
            rgb,
        )
    } else {
        cells
    }
}

/// The cell buffer after the curve is drawn over the first `k` columns,
/// using the function values `ys`.
pub open spec fn spec_plot_curve(
    cells: Seq<u32>,
    ys: Seq<i64>,
    k: int,
    y_range: (i64, i64),
    p: Pixl,
    cols: int,
    rgb: [u32; 3],
) -> Seq<u32>
    decreases k,
{
    if k <= 0 {
        cells
    } else {
        spec_plot_col(
            spec_plot_curve(cells, ys, k - 1, y_range, p, cols, rgb),
            ys[k - 1],
            k - 1,
            y_range,
            p,
            cols,
            rgb,
        )
    }
}

/// The first `k` curve steps read only the first `k` function values, so a
/// value pushed at the end changes nothing about them.
proof fn lemma_plot_curve_prefix(
    cells: Seq<u32>,
    ys: Seq<i64>,
    y: i64,
    k: int,
    y_range: (i64, i64),
    p: Pixl,
    cols: int,
    rgb: [u32; 3],
)
    requires
        0 <= k <= ys.len(),
    ensures
        spec_plot_curve(cells, ys.push(y), k, y_range, p, cols, rgb) == spec_plot_curve(
            cells,
            ys,
            k,
            y_range,
            p,
            cols,
            rgb,
        ),
    decreases k,
{
    if k > 0 {
        lemma_plot_curve_prefix(cells, ys, y, k - 1, y_range, p, cols, rgb);
        assert(ys.push(y)[k - 1] == ys[k - 1]);
    }
}

impl Canvas {
    /// The structural invariant: the logical grid tiles the raster exactly,
    /// the cell buffer holds one packed color per raw pixel, and the raw
    /// image has the same extent as the cell buffer.
    pub open spec fn wf(self) -> bool {
        &&& self.pixl.wf()
        &&& self.pixl.rows * self.pixl.height == self.rows
        &&& self.pixl.cols * self.pixl.width == self.cols
        &&& self.rows <= i32::MAX
        &&& self.cols <= i32::MAX
        &&& self.rows * self.cols * 3 <= usize::MAX
        &&& self.cells@.len() == self.rows * self.cols
        &&& image_pixels(self.image).len() == self.rows
        &&& image_width(self.image) == self.cols
        &&& image_rect(self.image)
    }

    /// A fresh all-black canvas: one raw pixel per logical cell, a zeroed
    /// cell buffer of `rows * cols` entries, and a raster of the same extent.
    pub fn new(rows: usize, cols: usize) -> (r: Canvas)
        requires
            1 <= rows <= i32::MAX,
            1 <= cols <= i32::MAX,
            rows * cols * 3 <= usize::MAX,
        ensures
            r.wf(),
            r.rows == rows,
            r.cols == cols,
            r.pixl == (Pixl { width: 1, height: 1, rows, cols }),
            r.cells@.len() == rows * cols,
            forall|i: int| 0 <= i < rows * cols ==> r.cells@[i] == 0,
            image_pixels(r.image).len() == rows,
            image_width(r.image) == cols,
            forall|y: int, x: int|
                0 <= y < rows && 0 <= x < cols ==> #[trigger] image_pixels(r.image)[y][x] == (
                0u8,
                0u8,
                0u8,
                ),
    {
        proof {
            assert(rows * cols <= rows * cols * 3) by (nonlinear_arith)
                requires rows >= 0, cols >= 0;
            assert(3 * (cols as int) * (rows as int) == rows * cols * 3) by (nonlinear_arith);
        }
        let cells = filled_u32(rows * cols, 0);
        Canvas {
            rows,
            cols,
            pixl: Pixl::default_pixl(1, 1, rows, cols),
            cells,
            image: img_new(cols as u32, rows as u32),
        }
    }

    /// Fills every raw pixel of the logical cell block at grid position
    /// `(r, c)` within the cell buffer with the packed color; a request
    /// outside the logical grid is silently ignored.
    #[verifier::loop_isolation(false)]
    pub fn draw_pixl(&mut self, r: usize, c: usize, rgb: [u32; 3])
        requires
            old(self).wf(),
        ensures
            final (self).wf(),
            final (self).rows == old(self).rows,
            final (self).cols == old(self).cols,
            final (self).pixl == old(self).pixl,
            final (self).image == old(self).image,
            final (self).cells@ == spec_draw_pixl(
                old(self).cells@,
                r as int,
                c as int,
                old(self).pixl,
                old(self).cols as int,
                rgb,
            ),
            r >= old(self).pixl.rows || c >= old(self).pixl.cols ==> *final (self) == *old(self),
    {
        if r > self.pixl.rows - 1 {
            return ;
        }
        if c > self.pixl.cols - 1 {
            return ;
        }
        let ghost cells0 = self.cells@;
        let buffer_cols = self.cols;
        let pixl_height = self.pixl.height;
        let pixl_width = self.pixl.width;
        proof {
            assert((c as int) * pixl_width + pixl_width == (c + 1) * pixl_width)
                by (nonlinear_arith);
            assert((r as int) * pixl_height + pixl_height == (r + 1) * pixl_height)
                by (nonlinear_arith);
            assert((c + 1) * (pixl_width as int) <= (self.pixl.cols as int) * pixl_width)
                by (nonlinear_arith)
                requires c + 1 <= self.pixl.cols, pixl_width >= 0;
            assert((r + 1) * (pixl_height as int) <= (self.pixl.rows as int) * pixl_height)
                by (nonlinear_arith)
                requires r + 1 <= self.pixl.rows, pixl_height >= 0;
        }
        let start_col = c * pixl_width;
        let start_row = r * pixl_height;
        let packed = (rgb[0] << 16) | (rgb[1] << 8) | rgb[2];
        let mut sub_row: usize = 0;
        while sub_row < pixl_height
            invariant
                sub_row <= pixl_height,
                self.rows == old(self).rows,
                self.cols == old(self).cols,
                self.pixl == old(self).pixl,
                self.image == old(self).image,
                self.cells@.len() == cells0.len(),
                forall|i: int|
                    0 <= i < cells0.len() ==> self.cells@[i] == (if in_block(
                        i,
                        r as int,
                        c as int,
                        self.pixl,
                        self.cols as int,
                    ) && block_prefix(
                        i,
                        self.cols as int,
                        start_row + sub_row,
                        start_col as int,
                    ) {
                        pack32(rgb)
                    } else {
                        cells0[i]
                    }),
            decreases pixl_height - sub_row,
        {
            let mut sub_col: usize = 0;
            while sub_col < pixl_width
                invariant
                    sub_row < pixl_height,
                    sub_col <= pixl_width,
                    self.rows == old(self).rows,
                    self.cols == old(self).cols,
                    self.pixl == old(self).pixl,
                    self.image == old(self).image,
                    self.cells@.len() == cells0.len(),
                    forall|i: int|
                        0 <= i < cells0.len() ==> self.cells@[i] == (if in_block(
                            i,
                            r as int,
                            c as int,
                            self.pixl,
                            self.cols as int,
                        ) && block_prefix(
                            i,
                            self.cols as int,
                            start_row + sub_row,
                            start_col + sub_col,
                        ) {
                            pack32(rgb)
                        } else {
                            cells0[i]
                        }),
                decreases pixl_width - sub_col,
            {
                proof {
                    assert((start_row + sub_row) * (buffer_cols as int) + (buffer_cols - 1) < (
                    self.rows as int) * (self.cols as int)) by (nonlinear_arith)
                        requires
                            start_row + sub_row < self.rows,
                            0 < buffer_cols == self.cols,
                            self.rows >= 1,
                    ;
                    assert(0 <= (start_row + sub_row) * (buffer_cols as int)) by (nonlinear_arith)
                        requires 0 <= start_row + sub_row, 0 <= buffer_cols;
                }
                let index = (start_row + sub_row) * buffer_cols + start_col + sub_col;
                proof {
                    lemma_fundamental_div_mod_converse(
                        index as int,
                        buffer_cols as int,
                        (start_row + sub_row) as int,
                        (start_col + sub_col) as int,
                    );
                }
                self.cells.set(index, packed);
                proof {
                    assert forall|i: int| 0 <= i < cells0.len() implies self.cells@[i] == (
                    if in_block(i, r as int, c as int, self.pixl, self.cols as int)
                        && block_prefix(
                        i,
                        self.cols as int,
                        start_row + sub_row,
                        start_col + sub_col + 1,
                    ) {
                        pack32(rgb)
                    } else {
                        cells0[i]
                    }) by {
                        vstd::arithmetic::div_mod::lemma_fundamental_div_mod(
                            i,
                            self.cols as int,
                        );
                        assert((self.cols as int) * ((start_row + sub_row) as int) == ((start_row
                            + sub_row) as int) * (self.cols as int)) by (nonlinear_arith);
                        assert((self.cols as int) * (i / (self.cols as int)) == (i / (
                        self.cols as int)) * (self.cols as int)) by (nonlinear_arith);
                    }
                }
                sub_col += 1;
            }
            sub_row += 1;
        }
        proof {
            assert(self.cells@ =~= spec_draw_pixl(
                cells0,
                r as int,
                c as int,
                self.pixl,
                self.cols as int,
                rgb,
            ));
        }
    }

    /// Draws a frame one logical cell thick along the four edges of the
    /// logical grid: exactly the outermost ring of cells takes the packed
    /// color, and the interior keeps its previous contents (see
    /// `lemma_add_border_cell`).
    #[verifier::loop_isolation(false)]
    pub fn add_border(&mut self, rgb: [u32; 3])
        requires
            old(self).wf(),
        ensures
            final (self).wf(),
            final (self).rows == old(self).rows,
            final (self).cols == old(self).cols,
            final (self).pixl == old(self).pixl,
            final (self).image == old(self).image,
            final (self).cells@ == spec_add_border(
                old(self).cells@,
                old(self).pixl,
                old(self).cols as int,
                rgb,
            ),
    {
        let rows = self.pixl.rows;
        let cols = self.pixl.cols;
        let ghost cells0 = self.cells@;
        let ghost p = self.pixl;
        let ghost bcols = self.cols as int;
        let ghost brows = self.rows as int;
        proof {
            assert forall|i: int| 0 <= i < cells0.len() implies ring_cols_filled(
                cells0,
                p,
                bcols,
                0,
                rgb,
            )[i] == cells0[i] by {
                lemma_cell_in_grid(i, p, bcols, brows);
            }
            assert(self.cells@ =~= ring_cols_filled(cells0, p, bcols, 0, rgb));
        }
        let mut col: usize = 0;
        while col < cols
            invariant
                col <= cols,
                self.rows == old(self).rows,
                self.cols == old(self).cols,
                self.pixl == old(self).pixl,
                self.image == old(self).image,
                self.cells@ == ring_cols_filled(cells0, p, bcols, col as int, rgb),
            decreases cols - col,
        {
            let ghost before = self.cells@;
            let ghost cur = col as int;
            self.draw_pixl(0, col, rgb);
            let ghost mid = self.cells@;
            self.draw_pixl(rows - 1, col, rgb);
            col += 1;
            proof {
                assert forall|i: int| 0 <= i < cells0.len() implies self.cells@[i]
                    == ring_cols_filled(cells0, p, bcols, cur + 1, rgb)[i] by {
                    lemma_in_block_is_cell(i, 0, cur, p, bcols, brows);
                    lemma_in_block_is_cell(i, p.rows - 1, cur, p, bcols, brows);
                    assert(mid[i] == (if in_block(i, 0, cur, p, bcols) {
                        pack32(rgb)
                    } else {
                        before[i]
                    }));
                    assert(self.cells@[i] == (if in_block(i, p.rows - 1, cur, p, bcols) {
                        pack32(rgb)
                    } else {
                        mid[i]
                    }));
                }
                assert(self.cells@ =~= ring_cols_filled(cells0, p, bcols, cur + 1, rgb));
            }
        }
        proof {
            assert forall|i: int| 0 <= i < cells0.len() implies ring_filled(
                cells0,
                p,
                bcols,
                0,
                rgb,
            )[i] == self.cells@[i] by {
                lemma_cell_in_grid(i, p, bcols, brows);
            }
            assert(self.cells@ =~= ring_filled(cells0, p, bcols, 0, rgb));
        }
        let mut row: usize = 0;
        while row < rows
            invariant
                row <= rows,
                self.rows == old(self).rows,
                self.cols == old(self).cols,
                self.pixl == old(self).pixl,
                self.image == old(self).image,
                self.cells@ == ring_filled(cells0, p, bcols, row as int, rgb),
            decreases rows - row,
        {
            let ghost before = self.cells@;
            let ghost cur = row as int;
            self.draw_pixl(row, 0, rgb);
            let ghost mid = self.cells@;
            self.draw_pixl(row, cols - 1, rgb);
            row += 1;
            proof {
                assert forall|i: int| 0 <= i < cells0.len() implies self.cells@[i] == ring_filled(
                    cells0,
                    p,
                    bcols,
                    cur + 1,
                    rgb,
                )[i] by {
                    lemma_in_block_is_cell(i, cur, 0, p, bcols, brows);
                    lemma_in_block_is_cell(i, cur, p.cols - 1, p, bcols, brows);
                    lemma_cell_in_grid(i, p, bcols, brows);
                    assert(mid[i] == (if in_block(i, cur, 0, p, bcols) {
                        pack32(rgb)
                    } else {
                        before[i]
                    }));
                    assert(self.cells@[i] == (if in_block(i, cur, p.cols - 1, p, bcols) {
                        pack32(rgb)
                    } else {
                        mid[i]
                    }));
                }
                assert(self.cells@ =~= ring_filled(cells0, p, bcols, cur + 1, rgb));
            }
        }
        proof {
            assert(self.cells@ =~= spec_add_border(cells0, p, bcols, rgb));
        }
    }

    /// Flattens a raw raster into the packed-color cell buffer: a row-major
    /// scan that packs every pixel's channels. The result is a function of
    /// the raster's pixels alone, so flattening an unchanged raster twice
    /// yields the same buffer.
    #[verifier::loop_isolation(false)]
    pub fn as_u32_buffer(im: &Raster) -> (r: Vec<u32>)
        requires
            image_rect(*im),
            image_pixels(*im).len() * image_width(*im) <= usize::MAX,
        ensures
            r@ == rasterized(image_pixels(*im), image_width(*im) as int),
    {
        let rows = img_height(im) as usize;
        let cols = img_width(im) as usize;
        let ghost pix = image_pixels(*im);
        let mut buffer = filled_u32(rows * cols, 0u32);
        let mut row: usize = 0;
        while row < rows
            invariant
                row <= rows,
                buffer@.len() == rows * cols,
                forall|i: int|
                    0 <= i < (row as int) * (cols as int) ==> buffer@[i] == rasterized(
                        pix,
                        cols as int,
                    )[i],
            decreases rows - row,
        {
            let mut col: usize = 0;
            while col < cols
                invariant
                    row < rows,
                    col <= cols,
                    buffer@.len() == rows * cols,
                    forall|i: int|
                        0 <= i < (row as int) * (cols as int) + col ==> buffer@[i] == rasterized(
                            pix,
                            cols as int,
                        )[i],
                decreases cols - col,
            {
                let p = img_get_pixel(im, col as u32, row as u32);
                let code = ((p.0 as u32) << 16) | ((p.1 as u32) << 8) | (p.2 as u32);
                proof {
                    assert((row as int) * (cols as int) + col < (rows as int) * (cols as int))
                        by (nonlinear_arith)
                        requires row < rows, col < cols;
                    assert(0 <= (row as int) * (cols as int)) by (nonlinear_arith)
                        requires 0 <= row, 0 <= cols;
                }
                let index = row * cols + col;
                proof {
                    lemma_fundamental_div_mod_converse(
                        index as int,
                        cols as int,
                        row as int,
                        col as int,
                    );
                    assert(rasterized(pix, cols as int)[index as int] == spec_pack(
                        pix[row as int][col as int],
                    ));
                }
                buffer.set(index, code);
                col += 1;
            }
            proof {
                assert((row as int) * (cols as int) + cols == ((row + 1) as int) * (cols as int))
                    by (nonlinear_arith);
            }
            row += 1;
        }
        proof {
            assert(buffer@ =~= rasterized(pix, cols as int));
        }
        buffer
    }

    /// Draws a filled circle of the given color and pixel radius centered in
    /// the raster block of logical cell `(r, c)`, directly onto the raw
    /// image; the cell buffer is left alone until a resynchronization.
    pub fn draw_rgb_circle(&mut self, r: usize, c: usize, rgb: [u8; 3], radius: i32)
        requires
            old(self).wf(),
            r < old(self).pixl.rows,
            c < old(self).pixl.cols,
            old(self).rows <= 1048576,
            old(self).cols <= 1048576,
            -1048576 <= radius <= 1048576,
        ensures
            final (self).wf(),
            final (self).rows == old(self).rows,
            final (self).cols == old(self).cols,
            final (self).pixl == old(self).pixl,
            final (self).cells@ == old(self).cells@,
            image_pixels(final (self).image) == circle_filled(
                image_pixels(old(self).image),
                c * old(self).pixl.width + old(self).pixl.width / 2,
                r * old(self).pixl.height + old(self).pixl.height / 2,
                radius as int,
                (rgb[0], rgb[1], rgb[2]),
            ),
    {
        let pixl_height = self.pixl.height;
        let pixl_width = self.pixl.width;
        proof {
            assert((c as int) * pixl_width + pixl_width == (c + 1) * pixl_width)
                by (nonlinear_arith);
            assert((c + 1) * (pixl_width as int) <= (self.pixl.cols as int) * pixl_width)
                by (nonlinear_arith)
                requires c + 1 <= self.pixl.cols, pixl_width >= 0;
            assert((r as int) * pixl_height + pixl_height == (r + 1) * pixl_height)
                by (nonlinear_arith);
            assert((r + 1) * (pixl_height as int) <= (self.pixl.rows as int) * pixl_height)
                by (nonlinear_arith)
                requires r + 1 <= self.pixl.rows, pixl_height >= 0;
        }
        let col = c * pixl_width + pixl_width / 2;
        let row = r * pixl_height + pixl_height / 2;
        img_fill_circle(&mut self.image, col as i32, row as i32, radius, rgb);
    }

    /// Plots each datum strictly inside both ranges as a filled circle at
    /// the center of its mapped cell's raster block, skipping boundary and
    /// outside points, then resynchronizes the cell buffer from the raster.
    #[verifier::loop_isolation(false)]
    pub fn graphics_plot_data(
        &mut self,
        data: &Vec<(i64, i64)>,
        x_range: (i64, i64),
        y_range: (i64, i64),
        rgb: [u8; 3],
        radius: i32,
    )
        requires
            old(self).wf(),
            x_range.0 < x_range.1,
            y_range.0 < y_range.1,
            (x_range.1 - x_range.0) * old(self).pixl.cols <= i64::MAX,
            (y_range.1 - y_range.0) * old(self).pixl.rows <= i64::MAX,
            old(self).rows <= 1048576,
            old(self).cols <= 1048576,
            -1048576 <= radius <= 1048576,
        ensures
            final (self).wf(),
            final (self).rows == old(self).rows,
            final (self).cols == old(self).cols,
            final (self).pixl == old(self).pixl,
            image_pixels(final (self).image) == spec_plot_data(
                image_pixels(old(self).image),
                data@,
                data@.len() as int,
                x_range,
                y_range,
                old(self).pixl,
                radius as int,
                (rgb[0], rgb[1], rgb[2]),
            ),
            final (self).cells@ == rasterized(
                image_pixels(final (self).image),
                old(self).cols as int,
            ),
    {
        let grid_rows = self.pixl.rows;
        let grid_cols = self.pixl.cols;
        let ghost pix0 = image_pixels(self.image);
        let ghost p = self.pixl;
        let mut i: usize = 0;
        while i < data.len()
            invariant
                i <= data.len(),
                self.wf(),
                self.rows == old(self).rows,
                self.cols == old(self).cols,
                self.pixl == old(self).pixl,
                image_pixels(self.image) == spec_plot_data(
                    pix0,
                    data@,
                    i as int,
                    x_range,
                    y_range,
                    p,
                    radius as int,
                    (rgb[0], rgb[1], rgb[2]),
                ),
            decreases data.len() - i,
        {
            let d = data[i];
            if d.0 > x_range.0 && d.0 < x_range.1 {
                if d.1 > y_range.0 && d.1 < y_range.1 {
                    let col = to_pixel(d.0, x_range.0, x_range.1, grid_cols);
                    let row = to_pixel(d.1, y_range.0, y_range.1, grid_rows);
                    self.draw_rgb_circle(row, col, rgb, radius);
                }
            }
            i += 1;
        }
        proof {
            assert(self.rows * self.cols <= self.rows * self.cols * 3) by (nonlinear_arith)
                requires self.rows >= 0, self.cols >= 0;
        }
        self.cells = Canvas::as_u32_buffer(&self.image);
    }

    /// Draws a filled circle of the given color and radius at every node's
    /// layout position, directly onto the raster, then resynchronizes the
    /// cell buffer from it.
    #[verifier::loop_isolation(false)]
    pub fn plot_network_nodes(&mut self, network: &Network, rgb: [u8; 3], radius: i32)
        requires
            old(self).wf(),
            network.wf(),
            -1048576 <= radius <= 1048576,
        ensures
            final (self).wf(),
            final (self).rows == old(self).rows,
            final (self).cols == old(self).cols,
            final (self).pixl == old(self).pixl,
            image_pixels(final (self).image) == spec_draw_nodes(
                image_pixels(old(self).image),
                *network,
                network.nodes(),
                radius as int,
                (rgb[0], rgb[1], rgb[2]),
            ),
            final (self).cells@ == rasterized(
                image_pixels(final (self).image),
                old(self).cols as int,
            ),
    {
        let num_nodes = network.layer_list.len();
        let ghost pix0 = image_pixels(self.image);
        let mut n: usize = 0;
        while n < num_nodes
            invariant
                n <= num_nodes,
                self.wf(),
                self.rows == old(self).rows,
                self.cols == old(self).cols,
                self.pixl == old(self).pixl,
                image_pixels(self.image) == spec_draw_nodes(
                    pix0,
                    *network,
                    n as int,
                    radius as int,
                    (rgb[0], rgb[1], rgb[2]),
                ),
            decreases num_nodes - n,
        {
            img_fill_circle(&mut self.image, network.pos_x[n], network.pos_y[n], radius, rgb);
            n += 1;
        }
        proof {
            assert(self.rows * self.cols <= self.rows * self.cols * 3) by (nonlinear_arith)
                requires self.rows >= 0, self.cols >= 0;
        }
        self.cells = Canvas::as_u32_buffer(&self.image);
    }

    /// Plots a function curve: each logical column's domain value goes
    /// through `f`, and a result strictly inside the y range colors a 2 by 2
    /// square of logical cells at its mapped position, while any other
    /// result skips the column. The final buffer is `spec_plot_curve` over a
    /// sequence of values that `f` allows for the column points.
    #[verifier::loop_isolation(false)]
    pub fn add_plot<F: Fn(i64) -> i64>(
        &mut self,
        f: F,
        x_range: (i64, i64),
        y_range: (i64, i64),
        rgb: [u32; 3],
    )
        requires
            old(self).wf(),
            x_range.0 < x_range.1,
            y_range.0 < y_range.1,
            (x_range.1 - x_range.0) * old(self).pixl.cols <= i64::MAX,
            (y_range.1 - y_range.0) * old(self).pixl.rows <= i64::MAX,
            forall|col: int|
                0 <= col < old(self).pixl.cols ==> f.requires(
                    (
                        spec_to_domain(
                            col,
                            x_range.0 as int,
                            x_range.1 as int,
                            old(self).pixl.cols as int,
                        ) as i64,
                    ),
                ),
        ensures
            final (self).wf(),
            final (self).rows == old(self).rows,
            final (self).cols == old(self).cols,
            final (self).pixl == old(self).pixl,
            final (self).image == old(self).image,
            exists|ys: Seq<i64>|
                #![auto]
                {
                    &&& ys.len() == old(self).pixl.cols
                    &&& (forall|col: int|
                        0 <= col < old(self).pixl.cols ==> f.ensures(
                            (
                                spec_to_domain(
                                    col,
                                    x_range.0 as int,
                                    x_range.1 as int,
                                    old(self).pixl.cols as int,
                                ) as i64,
                            ),
                            ys[col],
                        ))
                    &&& final (self).cells@ == spec_plot_curve(
                        old(self).cells@,
                        ys,
                        old(self).pixl.cols as int,
                        y_range,
                        old(self).pixl,
                        old(self).cols as int,
                        rgb,
                    )
                },
    {
        let grid_rows = self.pixl.rows;
        let grid_cols = self.pixl.cols;
        let ghost cells0 = self.cells@;
        let ghost p = self.pixl;
        let ghost bcols = self.cols as int;
        let ghost mut ys: Seq<i64> = Seq::empty();
        let mut col: usize = 0;
        while col < grid_cols
            invariant
                col <= grid_cols,
                self.wf(),
                self.rows == old(self).rows,
                self.cols == old(self).cols,
                self.pixl == old(self).pixl,
                self.image == old(self).image,
                ys.len() == col,
                forall|j: int|
                    0 <= j < col ==> f.ensures(
                        (
                            spec_to_domain(
                                j,
                                x_range.0 as int,
                                x_range.1 as int,
                                p.cols as int,
                            ) as i64,
                        ),
                        #[trigger] ys[j],
                    ),
                self.cells@ == spec_plot_curve(cells0, ys, col as int, y_range, p, bcols, rgb),
            decreases grid_cols - col,
        {
            let x = to_domain(col, x_range.0, x_range.1, grid_cols);
            let y = f(x);
            let ghost cur = col as int;
            let ghost ys_old = ys;
            proof {
                ys = ys.push(y);
                lemma_plot_curve_prefix(cells0, ys_old, y, cur, y_range, p, bcols, rgb);
                assert(ys[cur] == y);
            }
            let ghost step0 = self.cells@;
            if y > y_range.0 && y < y_range.1 {
                let row = to_pixel(y, y_range.0, y_range.1, grid_rows);
                self.draw_pixl(row, col, rgb);
                self.draw_pixl(row + 1, col, rgb);
                self.draw_pixl(row, col + 1, rgb);
                self.draw_pixl(row + 1, col + 1, rgb);
            }
            col += 1;
            proof {
                assert(self.cells@ == spec_plot_col(step0, y, cur, y_range, p, bcols, rgb));
                assert(spec_plot_curve(cells0, ys, cur + 1, y_range, p, bcols, rgb)
                    == spec_plot_col(
                    spec_plot_curve(cells0, ys, cur, y_range, p, bcols, rgb),
                    y,
                    cur,
                    y_range,
                    p,
                    bcols,
                    rgb,
                ));
            }
        }
        proof {
            assert(exists|ys2: Seq<i64>|
                #![auto]
                {
                    &&& ys2.len() == old(self).pixl.cols
                    &&& (forall|j: int|
                        0 <= j < old(self).pixl.cols ==> f.ensures(
                            (
                                spec_to_domain(
                                    j,
                                    x_range.0 as int,
                                    x_range.1 as int,
                                    old(self).pixl.cols as int,
                                ) as i64,
                            ),
                            ys2[j],
                        ))
                    &&& self.cells@ == spec_plot_curve(
                        old(self).cells@,
                        ys2,
                        old(self).pixl.cols as int,
                        y_range,
                        old(self).pixl,
                        old(self).cols as int,
                        rgb,
                    )
                }) by {
                assert(ys.len() == old(self).pixl.cols);
                assert(self.cells@ == spec_plot_curve(
                    old(self).cells@,
                    ys,
                    old(self).pixl.cols as int,
                    y_range,
                    old(self).pixl,
                    old(self).cols as int,
                    rgb,
                ));
            }
        }
    }

    /// Resets both representations to all black; the extent and the block
    /// configuration stay as they were.
    pub fn clear(&mut self)
        requires
            old(self).wf(),
        ensures
            final (self).wf(),
            final (self).rows == old(self).rows,
            final (self).cols == old(self).cols,
            final (self).pixl == old(self).pixl,
            final (self).cells@.len() == old(self).cells@.len(),
            forall|i: int| 0 <= i < final (self).cells@.len() ==> final (self).cells@[i] == 0,
            image_pixels(final (self).image).len() == old(self).rows,
            image_width(final (self).image) == old(self).cols,
            forall|y: int, x: int|
                0 <= y < old(self).rows && 0 <= x < old(self).cols ==> #[trigger] image_pixels(
                    final (self).image,
                )[y][x] == (0u8, 0u8, 0u8),
    {
        proof {
            assert(self.rows * self.cols <= self.rows * self.cols * 3) by (nonlinear_arith)
                requires self.rows >= 0, self.cols >= 0;
            assert(3 * (self.cols as int) * (self.rows as int) == self.rows * self.cols * 3)
                by (nonlinear_arith);
        }
        self.cells = filled_u32(self.rows * self.cols, 0);
        self.image = img_new(self.cols as u32, self.rows as u32);
    }
}

} // verus!
