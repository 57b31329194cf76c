//! The raster that the orchestrator fills: a dense grid of cells, stored row
//! by row.

use crate::pixel::Pixel;
use vstd::prelude::*;

verus! {

/// A grid of `width` columns and `height` rows. The cell of column `i` and
/// row `j` stands at place `j * width + i`.
pub struct Buffer<C> {
    buffer: Vec<C>,
    height: usize,
    width: usize,
}

impl<C> View for Buffer<C> {
    type V = Seq<C>;

    /// The cells, row by row.
    closed spec fn view(&self) -> Seq<C> {
        self.buffer@
    }
}

impl<C> Buffer<C> {
    /// The number of columns.
    pub closed spec fn spec_width(&self) -> nat {
        self.width as nat
    }

    /// The number of rows.
    pub closed spec fn spec_height(&self) -> nat {
        self.height as nat
    }

    /// There is one cell for every column of every row.
    pub open spec fn well_formed(&self) -> bool {
        self@.len() == self.spec_width() * self.spec_height()
    }

    /// Whether the grid has a cell for `pixel`.
    pub open spec fn holds(&self, pixel: Pixel) -> bool {
        pixel.i < self.spec_width() && pixel.j < self.spec_height()
    }

    /// The place of a pixel's cell among the cells.
    pub open spec fn place(&self, pixel: Pixel) -> int {
        pixel.j * self.spec_width() + pixel.i
    }

    /// The cell of `pixel`.
    pub open spec fn cell(&self, pixel: Pixel) -> C
        recommends
            self.holds(pixel),
    {
        self@[self.place(pixel)]
    }

    /// Every pixel of the grid has a place among the cells, and no two pixels
    /// share one.
    pub proof fn lemma_places(&self, p: Pixel, q: Pixel)
        requires
            self.well_formed(),
            self.holds(p),
            self.holds(q),
        ensures
            0 <= self.place(p) < self@.len(),
            self.place(p) == self.place(q) <==> p == q,
    {
        let w = self.spec_width();
        let h = self.spec_height();
        assert(p.j * w + p.i < w * h) by (nonlinear_arith)
            requires
                p.i < w,
                p.j < h,
        ;
        crate::pixel::lemma_place(w, p.i as int, p.j as int);
        crate::pixel::lemma_place(w, q.i as int, q.j as int);
    }

    /// A grid in which every cell holds `fill`.
    pub fn new(width: usize, height: usize, fill: C) -> (grid: Self) where C: Copy
        requires
            width * height <= usize::MAX,
        ensures
            grid.well_formed(),
            grid.spec_width() == width,
            grid.spec_height() == height,
            grid@ == Seq::new((width * height) as nat, |k: int| fill),
    {
        let mut buffer: Vec<C> = Vec::new();
        let mut j: usize = 0;
        while j < height
            invariant
                j <= height,
                width * height <= usize::MAX,
                buffer@ == Seq::new((width * j) as nat, |k: int| fill),
            decreases height - j,
        {
            let mut i: usize = 0;
            while i < width
                invariant
                    i <= width,
                    j < height,
                    width * height <= usize::MAX,
                    buffer@ == Seq::new((width * j + i) as nat, |k: int| fill),
                decreases width - i,
            {
                proof {
                    assert(width * j + width <= width * height) by (nonlinear_arith)
                        requires
                            j < height,
                    ;
                }
                buffer.push(fill);
                i += 1;
                assert(buffer@ =~= Seq::new((width * j + i) as nat, |k: int| fill));
            }
            j += 1;
            assert(width * j == width * (j - 1) + width) by (nonlinear_arith);
        }
        Buffer { buffer, height, width }
    }

    /// The number of columns.
    pub fn width(&self) -> (width: usize)
        ensures
            width == self.spec_width(),
    {
        self.width
    }

    /// The number of rows.
    pub fn height(&self) -> (height: usize)
        ensures
            height == self.spec_height(),
    {
        self.height
    }

    /// The number of cells.
    pub fn len(&self) -> (cells: usize)
        ensures
            cells == self@.len(),
    {
        self.buffer.len()
    }

    /// Whether the grid has a cell for `pixel`.
    pub fn contains(&self, pixel: &Pixel) -> (inside: bool)
        ensures
            inside == self.holds(*pixel),
    {
        pixel.i < self.width && pixel.j < self.height
    }

    /// The cell of `pixel`.
    pub fn get(&self, pixel: &Pixel) -> (cell: &C)
        requires
            self.well_formed(),
            self.holds(*pixel),
        ensures
            *cell == self.cell(*pixel),
    {
        let cells: usize = self.buffer.len();
        proof {
            self.lemma_places(*pixel, *pixel);
            assert(self.width * pixel.j == pixel.j * self.width) by (nonlinear_arith);
            assert(0 <= self.width * pixel.j) by (nonlinear_arith);
            assert(self.width * pixel.j + pixel.i < cells);
        }
        &self.buffer[self.width * pixel.j + pixel.i]
    }

    /// Puts `color` into the cell of `pixel` and leaves every other cell as
    /// it was.
    pub fn set(&mut self, pixel: &Pixel, color: C)
        requires
            old(self).well_formed(),
            old(self).holds(*pixel),
        ensures
            final(self).well_formed(),
            final(self).spec_width() == old(self).spec_width(),
            final(self).spec_height() == old(self).spec_height(),
            final(self)@ == old(self)@.update(old(self).place(*pixel), color),
            final(self).cell(*pixel) == color,
            forall|other: Pixel|
                old(self).holds(other) && other != *pixel ==> #[trigger] final(self).cell(other)
                    == old(self).cell(other),
    {
        let cells: usize = self.buffer.len();
        proof {
            self.lemma_places(*pixel, *pixel);
            assert(self.width * pixel.j == pixel.j * self.width) by (nonlinear_arith);
            assert(0 <= self.width * pixel.j) by (nonlinear_arith);
            assert(self.width * pixel.j + pixel.i < cells);
            assert forall|other: Pixel| old(self).holds(other) && other != *pixel implies old(
                self,
            ).place(other) != old(self).place(*pixel) && 0 <= old(self).place(other) < old(
                self,
            )@.len() by {
                old(self).lemma_places(other, *pixel);
            }
        }
        let place: usize = self.width * pixel.j + pixel.i;
        self.buffer.set(place, color);
    }
}

} // verus!
