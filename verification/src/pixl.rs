use vstd::prelude::*;

verus! {

/// How one logical grid cell maps onto a rectangle of raw pixels: each cell
/// covers `width` x `height` raw pixels, and the grid has `rows` x `cols`
/// logical cells.
#[derive(Clone, Copy, Debug, PartialEq, Eq, Structural)]
pub struct Pixl {
    pub width: usize,
    pub height: usize,
    pub rows: usize,
    pub cols: usize,
}

impl Pixl {
    /// A block configuration is well formed when every extent is at least one.
    pub open spec fn wf(self) -> bool {
        &&& self.width >= 1
        &&& self.height >= 1
        &&& self.rows >= 1
        &&& self.cols >= 1
    }

    /// The standard configuration for a fresh canvas.
    pub fn default_pixl(width: usize, height: usize, rows: usize, cols: usize) -> (r: Pixl)
        requires
            width >= 1,
            height >= 1,
            rows >= 1,
            cols >= 1,
        ensures
            r == (Pixl { width, height, rows, cols }),
            r.wf(),
    {
        Pixl { width, height, rows, cols }
    }
}

} // verus!
