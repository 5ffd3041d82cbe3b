//! A height field: a rectangular grid of grayscale samples, row-major.

use vstd::prelude::*;

verus! {

/// A width x height grid of 16-bit grayscale samples. The input bitmap
/// and both output forms are grids; a sample of 0 in the input is a mark
/// (a punch-through location).
pub struct Grid {
    width: usize,
    height: usize,
    data: Vec<u16>,
}

impl Grid {
    /// Width in pixels.
    pub closed spec fn spec_width(&self) -> int {
        self.width as int
    }

    /// Height in pixels.
    pub closed spec fn spec_height(&self) -> int {
        self.height as int
    }

    /// The sample at column `x`, row `y`.
    pub closed spec fn at(&self, x: int, y: int) -> u16 {
        self.data@[y * self.width as int + x]
    }

    /// Shape invariant: row-major storage of exactly width * height
    /// samples, with both dimensions small enough for the signed pixel
    /// arithmetic of the neighbor scans.
    pub closed spec fn wf(&self) -> bool {
        &&& self.data@.len() == self.width as int * self.height as int
        &&& self.width <= 0x7fff_ffff
        &&& self.height <= 0x7fff_ffff
    }

    /// The shape invariant bounds both dimensions and the total area.
    pub proof fn lemma_wf_bounds(&self)
        requires
            self.wf(),
        ensures
            self.spec_width() <= 0x7fff_ffff,
            self.spec_height() <= 0x7fff_ffff,
            self.spec_width() * self.spec_height() <= usize::MAX as int,
    {
        broadcast use vstd::std_specs::vec::axiom_spec_len;

        assert(vstd::std_specs::vec::spec_vec_len(&self.data) == self.data@.len());
    }

    /// A fresh all-zero grid.
    pub fn new(width: usize, height: usize) -> (g: Grid)
        requires
            width <= 0x7fff_ffff,
            height <= 0x7fff_ffff,
            width as int * height as int <= usize::MAX as int,
        ensures
            g.wf(),
            g.spec_width() == width,
            g.spec_height() == height,
            forall|x: int, y: int|
                0 <= x < width && 0 <= y < height ==> g.at(x, y) == 0,
    {
        let n: usize = width * height;
        let mut data: Vec<u16> = Vec::new();
        let mut i: usize = 0;
        while i < n
            invariant
                i <= n,
                data@.len() == i,
                forall|k: int| 0 <= k < i ==> data@[k] == 0,
            decreases n - i,
        {
            data.push(0);
            i = i + 1;
        }
        let g = Grid { width, height, data };
        proof {
            assert forall|x: int, y: int|
                0 <= x < width && 0 <= y < height implies g.at(x, y) == 0 by {
                lemma_row_major_index(width as int, height as int, x, y);
            }
        }
        g
    }

    /// Number of columns.
    pub fn width(&self) -> (w: usize)
        ensures
            w == self.spec_width(),
    {
        self.width
    }

    /// Number of rows.
    pub fn height(&self) -> (h: usize)
        ensures
            h == self.spec_height(),
    {
        self.height
    }

    /// Read the sample at column `x`, row `y`.
    pub fn get(&self, x: usize, y: usize) -> (s: u16)
        requires
            self.wf(),
            x < self.spec_width(),
            y < self.spec_height(),
        ensures
            s == self.at(x as int, y as int),
    {
        let _len: usize = self.data.len();
        proof {
            lemma_row_major_index(self.width as int, self.height as int, x as int, y as int);
        }
        self.data[y * self.width + x]
    }

    /// Write the sample at column `x`, row `y`; every other sample keeps
    /// its value.
    pub fn set(&mut self, x: usize, y: usize, s: u16)
        requires
            old(self).wf(),
            x < old(self).spec_width(),
            y < old(self).spec_height(),
        ensures
            final(self).wf(),
            final(self).spec_width() == old(self).spec_width(),
            final(self).spec_height() == old(self).spec_height(),
            final(self).at(x as int, y as int) == s,
            forall|i: int, j: int|
                0 <= i < old(self).spec_width() && 0 <= j < old(self).spec_height() && !(i == x && j
                    == y) ==> final(self).at(i, j) == old(self).at(i, j),
    {
        let _len: usize = self.data.len();
        proof {
            lemma_row_major_index(self.width as int, self.height as int, x as int, y as int);
        }
        let idx: usize = y * self.width + x;
        self.data.set(idx, s);
        proof {
            assert forall|i: int, j: int|
                0 <= i < self.spec_width() && 0 <= j < self.spec_height() && !(i == x as int && j
                    == y as int) implies self.at(i, j) == old(self).at(i, j) by {
                lemma_row_major_index(self.width as int, self.height as int, i, j);
                lemma_row_major_distinct(self.width as int, i, j, x as int, y as int);
            }
        }
    }

    /// Two grids are equal when their dimensions and every sample agree.
    pub fn grid_eq(&self, other: &Grid) -> (r: bool)
        requires
            self.wf(),
            other.wf(),
        ensures
            r == (self.spec_width() == other.spec_width() && self.spec_height()
                == other.spec_height() && (forall|x: int, y: int|
                0 <= x < self.spec_width() && 0 <= y < self.spec_height() ==> self.at(x, y)
                    == other.at(x, y))),
    {
        if self.width != other.width || self.height != other.height {
            return false;
        }
        let mut y: usize = 0;
        while y < self.height
            invariant
                self.wf(),
                other.wf(),
                self.spec_width() == other.spec_width(),
                self.spec_height() == other.spec_height(),
                y <= self.spec_height(),
                forall|i: int, j: int|
                    0 <= i < self.spec_width() && 0 <= j < y ==> self.at(i, j) == other.at(i, j),
            decreases self.spec_height() - y,
        {
            let mut x: usize = 0;
            while x < self.width
                invariant
                    self.wf(),
                    other.wf(),
                    self.spec_width() == other.spec_width(),
                    self.spec_height() == other.spec_height(),
                    y < self.spec_height(),
                    x <= self.spec_width(),
                    forall|i: int, j: int|
                        0 <= i < self.spec_width() && 0 <= j < y ==> self.at(i, j) == other.at(
                            i,
                            j,
                        ),
                    forall|i: int| 0 <= i < x ==> self.at(i, y as int) == other.at(i, y as int),
                decreases self.spec_width() - x,
            {
                if self.get(x, y) != other.get(x, y) {
                    return false;
                }
                x = x + 1;
            }
            y = y + 1;
        }
        true
    }
}

/// A row-major index lies inside the backing vector.
proof fn lemma_row_major_index(w: int, h: int, x: int, y: int)
    requires
        0 <= x < w,
        0 <= y < h,
    ensures
        0 <= y * w + x < w * h,
{
    assert(y * w + x < w * h) by (nonlinear_arith)
        requires
            0 <= x < w,
            0 <= y < h,
    ;
    assert(y * w >= 0) by (nonlinear_arith)
        requires
            y >= 0,
            w > 0,
    ;
}

/// Distinct coordinates have distinct row-major indices.
proof fn lemma_row_major_distinct(w: int, x1: int, y1: int, x2: int, y2: int)
    requires
        0 <= x1 < w,
        0 <= x2 < w,
        0 <= y1,
        0 <= y2,
        !(x1 == x2 && y1 == y2),
    ensures
        y1 * w + x1 != y2 * w + x2,
{
    if y1 == y2 {
    } else {
        assert(y1 * w + x1 != y2 * w + x2) by (nonlinear_arith)
            requires
                0 <= x1 < w,
                0 <= x2 < w,
                y1 != y2,
        ;
    }
}

} // verus!
