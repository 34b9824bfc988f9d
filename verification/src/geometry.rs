//! Grid geometry: rectangular extents and row-major index arithmetic.

use vstd::prelude::*;

verus! {

/// A signed placement: the position of a sprite's top-left corner on a
/// display buffer. Either component may be negative, and a placement may
/// put the sprite partially or fully outside the buffer.
#[derive(Debug, Clone, Copy, PartialEq, Eq)]
pub struct Coord(pub i32, pub i32);

/// An unsigned position addressing a cell inside a grid's own bounds:
/// row first, column second.
#[derive(Debug, Clone, Copy, PartialEq, Eq)]
pub struct Point(pub u32, pub u32);

/// The extent of a rectangular grid: `h` rows by `w` columns. A character
/// buffer attached to a `Rect` holds exactly `h * w` cells, row-major.
#[derive(Debug, Clone, Copy, PartialEq, Eq)]
pub struct Rect {
    pub h: u32,
    pub w: u32,
}

impl Rect {
    /// Number of cells of a grid with this extent.
    pub open spec fn area(self) -> int {
        self.h * self.w
    }

    /// Row-major offset of the cell in row `i`, column `j`.
    pub open spec fn flat_index(self, i: int, j: int) -> int {
        self.w * i + j
    }

    /// Whether `(i, j)` addresses a cell inside this extent.
    pub open spec fn contains(self, i: int, j: int) -> bool {
        0 <= i < self.h && 0 <= j < self.w
    }

    /// Row-major offset of cell `(i, j)`. Callers must guarantee that the
    /// cell lies within this extent.
    pub fn local_index(&self, i: u32, j: u32) -> (r: usize)
        requires
            i < self.h,
            j < self.w,
            self.area() <= usize::MAX,
        ensures
            r == self.flat_index(i as int, j as int),
            r < self.area(),
    {
        proof {
            lemma_flat_index_bounds(self.h as int, self.w as int, i as int, j as int);
        }
        (self.w as usize) * (i as usize) + (j as usize)
    }

    /// Row-major offset of the cell addressed by `point`.
    pub fn point_index(&self, point: Point) -> (r: usize)
        requires
            self.contains(point.0 as int, point.1 as int),
            self.area() <= usize::MAX,
        ensures
            r == self.flat_index(point.0 as int, point.1 as int),
            r < self.area(),
    {
        let Point(i, j) = point;
        self.local_index(i, j)
    }
}

/// A row-major offset of an in-bounds cell is nonnegative and below the
/// grid's area.
pub proof fn lemma_flat_index_bounds(h: int, w: int, i: int, j: int)
    requires
        0 <= i < h,
        0 <= j < w,
    ensures
        0 <= w * i + j < h * w,
{
    assert(0 <= w * i + j < h * w) by (nonlinear_arith)
        requires
            0 <= i < h,
            0 <= j < w,
    ;
}

/// Row-major indexing is injective over the cells of a `w`-wide grid:
/// two in-bounds cells with the same offset are the same cell.
pub proof fn lemma_flat_index_injective(w: int, i1: int, j1: int, i2: int, j2: int)
    requires
        0 <= i1,
        0 <= j1 < w,
        0 <= i2,
        0 <= j2 < w,
        w * i1 + j1 == w * i2 + j2,
    ensures
        i1 == i2,
        j1 == j2,
{
    assert(i1 == i2 && j1 == j2) by (nonlinear_arith)
        requires
            0 <= i1,
            0 <= j1 < w,
            0 <= i2,
            0 <= j2 < w,
            w * i1 + j1 == w * i2 + j2,
    ;
}

} // verus!
