//! Row-major two-dimensional buffers.  `Grid<Rgba>` is an image, `Grid<u8>`
//! a single-channel mask, `Grid<usize>` a label buffer.  Every stage consumes
//! buffers and produces fresh ones; a well-formed grid stores exactly
//! `width * height` cells, the cell at `(x, y)` at flat index
//! `y * width + x`.

use vstd::prelude::*;

verus! {

pub struct Grid<T> {
    pub width: usize,
    pub height: usize,
    pub cells: Vec<T>,
}

/// The flat index of `(x, y)` in a row-major grid of the given width.
pub open spec fn flat(x: int, y: int, width: int) -> int {
    y * width + x
}

/// In-bounds coordinates map to a flat index below `width * height`.
pub proof fn lemma_flat_in_bounds(x: int, y: int, width: int, height: int)
    requires
        0 <= x < width,
        0 <= y < height,
    ensures
        0 <= flat(x, y, width) < width * height,
{
    assert(0 <= y * width + x < width * height) by (nonlinear_arith)
        requires
            0 <= x < width,
            0 <= y < height,
    ;
}

/// Distinct in-bounds coordinates have distinct flat indices.
pub proof fn lemma_flat_injective(x1: int, y1: int, x2: int, y2: int, width: int)
    requires
        0 <= x1 < width,
        0 <= x2 < width,
        0 <= y1,
        0 <= y2,
        flat(x1, y1, width) == flat(x2, y2, width),
    ensures
        x1 == x2,
        y1 == y2,
{
    assert(x1 == x2 && y1 == y2) by (nonlinear_arith)
        requires
            y1 * width + x1 == y2 * width + x2,
            0 <= x1 < width,
            0 <= x2 < width,
            0 <= y1,
            0 <= y2,
    ;
}

impl<T: Copy> Grid<T> {
    /// Well-formedness: the cell vector holds one cell per coordinate.
    pub open spec fn wf(self) -> bool {
        self.cells.len() == self.width * self.height
    }

    pub open spec fn in_bounds(self, x: int, y: int) -> bool {
        0 <= x < self.width && 0 <= y < self.height
    }

    /// The cell at `(x, y)`.
    pub open spec fn cell(self, x: int, y: int) -> T {
        self.cells[flat(x, y, self.width as int)]
    }

    /// Two grids cover the same coordinates.
    pub open spec fn same_dims<U>(self, other: Grid<U>) -> bool {
        self.width == other.width && self.height == other.height
    }

    /// A fresh grid with every cell set to `fill`.
    pub fn new_fill(width: usize, height: usize, fill: T) -> (g: Grid<T>)
        requires
            width * height <= usize::MAX,
        ensures
            g.wf(),
            g.width == width,
            g.height == height,
            forall|i: int| 0 <= i < g.cells.len() ==> g.cells[i] == fill,
    {
        let n: usize = width * height;
        let mut cells: Vec<T> = Vec::new();
        let mut i: usize = 0;
        while i < n
            invariant
                i <= n,
                cells.len() == i,
                forall|j: int| 0 <= j < i ==> cells[j] == fill,
            decreases n - i,
        {
            cells.push(fill);
            i = i + 1;
        }
        Grid { width, height, cells }
    }

    pub fn get(&self, x: usize, y: usize) -> (v: T)
        requires
            self.wf(),
            self.in_bounds(x as int, y as int),
        ensures
            v == self.cell(x as int, y as int),
    {
        proof {
            lemma_flat_in_bounds(x as int, y as int, self.width as int, self.height as int);
        }
        self.cells[y * self.width + x]
    }

    pub fn set(&mut self, x: usize, y: usize, v: T)
        requires
            old(self).wf(),
            old(self).in_bounds(x as int, y as int),
        ensures
            final(self).width == old(self).width,
            final(self).height == old(self).height,
            final(self).wf(),
            final(self).cells@ == old(self).cells@.update(
                flat(x as int, y as int, old(self).width as int),
                v,
            ),
    {
        proof {
            lemma_flat_in_bounds(x as int, y as int, self.width as int, self.height as int);
        }
        let i: usize = y * self.width + x;
        self.cells[i] = v;
    }
}

} // verus!
