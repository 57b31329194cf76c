//! Pixels of a raster, and the two orders in which a raster is walked.

use vstd::prelude::*;

verus! {

/// One cell of a raster: column `i`, counted rightward, and row `j`, counted
/// upward from the bottom row.
#[derive(Clone, Copy, Debug, PartialEq, Eq, Structural)]
pub struct Pixel {
    pub i: usize,
    pub j: usize,
}

impl Pixel {
    pub fn new(i: usize, j: usize) -> (pixel: Self)
        ensures
            pixel == (Pixel { i, j }),
    {
        Pixel { i, j }
    }

    pub fn i(&self) -> (i: usize)
        ensures
            i == self.i,
    {
        self.i
    }

    pub fn j(&self) -> (j: usize)
        ensures
            j == self.j,
    {
        self.j
    }
}

/// The pixel at place `k` when a raster of the given width is walked row by
/// row from the bottom row up, each row from left to right.
pub open spec fn job_at(width: nat, k: int) -> Pixel {
    Pixel { i: (k % width as int) as usize, j: (k / width as int) as usize }
}

/// The pixel at place `k` when a raster is walked as an image is written:
/// from the top row down, each row from left to right.
pub open spec fn scan_at(width: nat, height: nat, k: int) -> Pixel {
    Pixel { i: (k % width as int) as usize, j: (height - 1 - k / width as int) as usize }
}

/// Place `j * width + i` of a raster is in row `j` and column `i`.
pub proof fn lemma_place(width: nat, i: int, j: int)
    requires
        0 <= i < width,
        0 <= j,
    ensures
        (j * width + i) % width as int == i,
        (j * width + i) / width as int == j,
{
    vstd::arithmetic::div_mod::lemma_fundamental_div_mod_converse(
        j * width + i,
        width as int,
        j,
        i,
    );
}

/// Each of the first `width * height` places of either walk is a pixel of the
/// raster.
pub proof fn lemma_inside(width: nat, height: nat, k: int)
    requires
        0 <= k < width * height,
    ensures
        job_at(width, k).i < width,
        job_at(width, k).j < height,
        scan_at(width, height, k).i < width,
        scan_at(width, height, k).j < height,
{
    let w = width as int;
    assert(w > 0) by (nonlinear_arith)
        requires
            0 <= k < w * height,
    ;
    vstd::arithmetic::div_mod::lemma_fundamental_div_mod(k, w);
    vstd::arithmetic::div_mod::lemma_mod_bound(k, w);
    vstd::arithmetic::div_mod::lemma_div_pos_is_pos(k, w);
    assert(k / w < height) by (nonlinear_arith)
        requires
            0 <= k < w * height,
            w > 0,
            k == w * (k / w) + k % w,
            0 <= k % w < w,
    ;
}

/// Every pixel of a raster, as jobs: row by row from the bottom row up, each
/// row from left to right.
pub fn jobs(width: usize, height: usize) -> (pixels: Vec<Pixel>)
    requires
        width * height <= usize::MAX,
    ensures
        pixels@ == Seq::new((width * height) as nat, |k: int| job_at(width as nat, k)),
{
    let mut pixels: Vec<Pixel> = Vec::new();
    let mut j: usize = 0;
    while j < height
        invariant
            j <= height,
            width * height <= usize::MAX,
            pixels@ == Seq::new((width * j) as nat, |k: int| job_at(width as nat, k)),
        decreases height - j,
    {
        let mut i: usize = 0;
        while i < width
            invariant
                i <= width,
                j < height,
                width * height <= usize::MAX,
                pixels@ == Seq::new((width * j + i) as nat, |k: int| job_at(width as nat, k)),
            decreases width - i,
        {
            proof {
                lemma_place(width as nat, i as int, j as int);
                assert(width * j == j * width) by (nonlinear_arith);
                assert(width * j + width <= width * height) by (nonlinear_arith)
                    requires
                        j < height,
                ;
            }
            pixels.push(Pixel::new(i, j));
            i += 1;
            assert(pixels@ =~= Seq::new(
                (width * j + i) as nat,
                |k: int| job_at(width as nat, k),
            ));
        }
        j += 1;
        assert(width * j == width * (j - 1) + width) by (nonlinear_arith);
    }
    pixels
}

/// Every pixel of a raster in the order in which an image is written: from
/// the top row down, each row from left to right.
pub fn scan_order(width: usize, height: usize) -> (pixels: Vec<Pixel>)
    requires
        width * height <= usize::MAX,
    ensures
        pixels@ == Seq::new(
            (width * height) as nat,
            |k: int| scan_at(width as nat, height as nat, k),
        ),
{
    let mut pixels: Vec<Pixel> = Vec::new();
    let mut row: usize = 0;
    while row < height
        invariant
            row <= height,
            width * height <= usize::MAX,
            pixels@ == Seq::new(
                (width * row) as nat,
                |k: int| scan_at(width as nat, height as nat, k),
            ),
        decreases height - row,
    {
        let j: usize = height - 1 - row;
        let mut i: usize = 0;
        while i < width
            invariant
                i <= width,
                row < height,
                j == height - 1 - row,
                width * height <= usize::MAX,
                pixels@ == Seq::new(
                    (width * row + i) as nat,
                    |k: int| scan_at(width as nat, height as nat, k),
                ),
            decreases width - i,
        {
            proof {
                lemma_place(width as nat, i as int, row as int);
                assert(width * row == row * width) by (nonlinear_arith);
                assert(width * row + width <= width * height) by (nonlinear_arith)
                    requires
                        row < height,
                ;
            }
            pixels.push(Pixel::new(i, j));
            i += 1;
            assert(pixels@ =~= Seq::new(
                (width * row + i) as nat,
                |k: int| scan_at(width as nat, height as nat, k),
            ));
        }
        row += 1;
        assert(width * row == width * (row - 1) + width) by (nonlinear_arith);
    }
    pixels
}

} // verus!
