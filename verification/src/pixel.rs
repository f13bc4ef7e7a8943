//! The in-memory pixel grid the engine operates on.

use vstd::prelude::*;

verus! {

/// One 4-channel color value.
#[derive(Debug, PartialEq, Eq, Structural, Clone, Copy)]
pub struct Pixel {
    pub r: u8,
    pub g: u8,
    pub b: u8,
    pub a: u8,
}

impl Pixel {
    /// The default (fully transparent) value panels leave in cells that do not
    /// belong to their region.
    pub open spec fn empty_spec() -> Pixel {
        Pixel { r: 0, g: 0, b: 0, a: 0 }
    }

    pub fn new(r: u8, g: u8, b: u8, a: u8) -> (p: Pixel)
        ensures
            p == (Pixel { r, g, b, a }),
    {
        Pixel { r, g, b, a }
    }

    pub fn empty() -> (p: Pixel)
        ensures
            p == Pixel::empty_spec(),
    {
        Pixel { r: 0, g: 0, b: 0, a: 0 }
    }
}

/// Flat index of the cell `(x, y)` in a row-major grid of width `w`.
pub open spec fn grid_index(x: int, y: int, w: int) -> int {
    y * w + x
}

/// A cell inside the grid maps to a flat index inside the backing storage.
pub proof fn lemma_grid_index_in_bounds(x: int, y: int, w: int, h: int)
    requires
        0 <= x < w,
        0 <= y < h,
    ensures
        0 <= grid_index(x, y, w) < w * h,
{
    assert(0 <= y * w + x < w * h) by (nonlinear_arith)
        requires
            0 <= x < w,
            0 <= y < h,
    ;
}

/// Distinct cells of one grid map to distinct flat indices.
pub proof fn lemma_grid_index_distinct(x1: int, y1: int, x2: int, y2: int, w: int)
    requires
        0 <= x1 < w,
        0 <= x2 < w,
        0 <= y1,
        0 <= y2,
        !(x1 == x2 && y1 == y2),
    ensures
        grid_index(x1, y1, w) != grid_index(x2, y2, w),
{
    if y1 < y2 {
        assert((y1 + 1) * w <= y2 * w) by (nonlinear_arith)
            requires
                y1 + 1 <= y2,
                0 <= w,
        ;
        assert(y1 * w + x1 < (y1 + 1) * w) by (nonlinear_arith)
            requires
                x1 < w,
        ;
    } else if y2 < y1 {
        assert((y2 + 1) * w <= y1 * w) by (nonlinear_arith)
            requires
                y2 + 1 <= y1,
                0 <= w,
        ;
        assert(y2 * w + x2 < (y2 + 1) * w) by (nonlinear_arith)
            requires
                x2 < w,
        ;
    }
}

/// A width-by-height grid of pixels, stored row-major.
#[derive(Debug)]
pub struct PixelBuffer {
    pub width: u32,
    pub height: u32,
    pub data: Vec<Pixel>,
}

impl PixelBuffer {
    /// The backing storage holds exactly one pixel per cell.
    pub open spec fn wf(self) -> bool {
        self.data@.len() == self.width as int * self.height as int
    }

    pub open spec fn in_bounds(self, x: int, y: int) -> bool {
        0 <= x < self.width as int && 0 <= y < self.height as int
    }

    /// The pixel stored at cell `(x, y)`.
    pub open spec fn pixel_at(self, x: int, y: int) -> Pixel {
        self.data@[grid_index(x, y, self.width as int)]
    }

    /// A fresh buffer with every cell set to `fill`.
    pub fn new(width: u32, height: u32, fill: Pixel) -> (r: PixelBuffer)
        requires
            width as int * height as int <= usize::MAX as int,
        ensures
            r.wf(),
            r.width == width,
            r.height == height,
            forall|x: int, y: int| r.in_bounds(x, y) ==> r.pixel_at(x, y) == fill,
    {
        assert(0 <= width as int * height as int) by (nonlinear_arith);
        let n: usize = (width as usize) * (height as usize);
        let data: Vec<Pixel> = vec![fill; n];
        let r = PixelBuffer { width, height, data };
        proof {
            assert forall|x: int, y: int| r.in_bounds(x, y) implies r.pixel_at(x, y) == fill by {
                lemma_grid_index_in_bounds(x, y, width as int, height as int);
            }
        }
        r
    }

    pub fn get(&self, x: u32, y: u32) -> (p: Pixel)
        requires
            self.wf(),
            self.in_bounds(x as int, y as int),
        ensures
            p == self.pixel_at(x as int, y as int),
    {
        proof {
            lemma_grid_index_in_bounds(x as int, y as int, self.width as int, self.height as int);
        }
        // reading the length records that the cell count fits in usize
        let _len: usize = self.data.len();
        let i: usize = (y as usize) * (self.width as usize) + (x as usize);
        self.data[i]
    }

    pub fn set(&mut self, x: u32, y: u32, p: Pixel)
        requires
            old(self).wf(),
            old(self).in_bounds(x as int, y as int),
        ensures
            final(self).wf(),
            final(self).width == old(self).width,
            final(self).height == old(self).height,
            final(self).pixel_at(x as int, y as int) == p,
            forall|x2: int, y2: int|
                final(self).in_bounds(x2, y2) && !(x2 == x as int && y2 == y as int)
                    ==> final(self).pixel_at(x2, y2) == old(self).pixel_at(x2, y2),
    {
        proof {
            lemma_grid_index_in_bounds(x as int, y as int, self.width as int, self.height as int);
        }
        // reading the length records that the cell count fits in usize
        let _len: usize = self.data.len();
        let i: usize = (y as usize) * (self.width as usize) + (x as usize);
        self.data.set(i, p);
        proof {
            assert forall|x2: int, y2: int|
                final(self).in_bounds(x2, y2) && !(x2 == x as int && y2 == y as int)
                    implies final(self).pixel_at(x2, y2) == old(self).pixel_at(x2, y2) by {
                lemma_grid_index_in_bounds(x2, y2, self.width as int, self.height as int);
                lemma_grid_index_distinct(x2, y2, x as int, y as int, self.width as int);
            }
        }
    }
}

} // verus!
