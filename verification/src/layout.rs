//! Layout descriptors for row-major, channel-interleaved 2D grids.

use vstd::prelude::*;

use crate::quant::{fixed_one, DEFAULT_FIXED_SCALE};
use crate::Qx;

verus! {

/// Clamping of a fixed-point scalar into the unit interval.
pub open spec fn spec_clamp_unit(x: int) -> int {
    if x < 0 {
        0
    } else if x > fixed_one() {
        fixed_one()
    } else {
        x
    }
}

/// Deterministically clamps a scalar into the unit interval.
pub fn clamp_unit(x: Qx) -> (r: Qx)
    ensures
        r == spec_clamp_unit(x as int),
        0 <= r <= fixed_one(),
{
    if x < 0 {
        0
    } else if x > DEFAULT_FIXED_SCALE {
        DEFAULT_FIXED_SCALE
    } else {
        x
    }
}

/// Upper bound on the number of grid cells a shape may describe.
///
/// Keeps `rgb_len` comfortably inside `usize` and keeps every whole-grid
/// fixed-point reduction inside `i128` without saturation.
pub const MAX_CELLS: usize = 0x100_0000;

/// Two-dimensional tensor shape describing height and width.
#[derive(Clone, Copy, Debug, PartialEq, Eq, Structural)]
pub struct Shape2D {
    pub h: usize,
    pub w: usize,
}

impl Shape2D {
    /// True when the shape has non-zero sides and a bounded cell count.
    pub open spec fn wf(self) -> bool {
        self.h > 0 && self.w > 0 && self.h * self.w <= MAX_CELLS
    }

    /// Number of cells described by the shape.
    pub open spec fn spec_cell_count(self) -> int {
        self.h * self.w
    }

    /// Creates a new shape; both dimensions must be non-zero.
    pub fn new(h: usize, w: usize) -> (s: Self)
        requires
            h > 0,
            w > 0,
            h * w <= MAX_CELLS,
        ensures
            s.wf(),
            s.h == h,
            s.w == w,
    {
        Self { h, w }
    }

    /// Returns the number of cells in the tensor.
    pub fn cell_count(&self) -> (n: usize)
        requires
            self.wf(),
        ensures
            n == self.spec_cell_count(),
            1 <= n <= MAX_CELLS,
    {
        proof {
            assert(1 * 1 <= self.h * self.w) by (nonlinear_arith)
                requires
                    self.h >= 1,
                    self.w >= 1,
            ;
        }
        self.h * self.w
    }

    /// Returns the total number of RGB elements given the interleaved layout.
    pub fn rgb_len(&self) -> (n: usize)
        requires
            self.wf(),
        ensures
            n == 3 * self.spec_cell_count(),
    {
        self.cell_count() * 3
    }
}

/// Two-dimensional stride descriptor enforcing row-major iteration order.
#[derive(Clone, Copy, Debug, PartialEq, Eq, Structural)]
pub struct Stride2D {
    pub row: usize,
    pub col: usize,
}

impl Stride2D {
    /// Constructs the stride descriptor of an interleaved RGB grid.
    pub fn new(shape: Shape2D) -> (s: Self)
        requires
            shape.wf(),
        ensures
            s.col == 3,
            s.row == 3 * shape.w,
    {
        proof {
            assert(shape.w * 1 <= shape.h * shape.w) by (nonlinear_arith)
                requires
                    shape.h >= 1,
                    shape.w >= 0,
            ;
        }
        let col: usize = 3;
        let row = shape.w * col;
        Self { row, col }
    }
}

/// Flat cell index of the cell at `(row, col)` in row-major order.
pub open spec fn spec_cell_index(shape: Shape2D, row: int, col: int) -> int {
    row * shape.w + col
}

/// Returns the flat cell index of the cell at `(row, col)`.
pub fn cell_index(shape: Shape2D, row: usize, col: usize) -> (i: usize)
    requires
        shape.wf(),
        row < shape.h,
        col < shape.w,
    ensures
        i == spec_cell_index(shape, row as int, col as int),
        i < shape.spec_cell_count(),
{
    proof {
        lemma_cell_index_bound(shape, row as int, col as int);
    }
    row * shape.w + col
}

/// Start of the RGB triplet of the cell at `(row, col)` in the flat buffer.
pub fn base_offset(shape: Shape2D, row: usize, col: usize) -> (o: usize)
    requires
        shape.wf(),
        row < shape.h,
        col < shape.w,
    ensures
        o == 3 * spec_cell_index(shape, row as int, col as int),
        o + 3 <= 3 * shape.spec_cell_count(),
{
    cell_index(shape, row, col) * 3
}

/// Shared helper for computing deterministic RGB index offsets.
pub fn channel_offset(stride: Stride2D, row: usize, col: usize, channel: usize) -> (o: usize)
    requires
        channel < 3,
        stride.col == 3,
        row * stride.row + col * 3 + 3 <= usize::MAX,
    ensures
        o == row * stride.row + col * 3 + channel,
{
    let row_offset = row * stride.row;
    let col_offset = col * stride.col;
    row_offset + col_offset + channel
}

/// A cell index computed from in-range coordinates stays inside the grid.
proof fn lemma_cell_index_bound(shape: Shape2D, row: int, col: int)
    requires
        shape.wf(),
        0 <= row < shape.h,
        0 <= col < shape.w,
    ensures
        0 <= spec_cell_index(shape, row, col),
        spec_cell_index(shape, row, col) < shape.spec_cell_count(),
        3 * spec_cell_index(shape, row, col) + 3 <= 3 * shape.spec_cell_count(),
{
    assert(row * shape.w + col < shape.h * shape.w) by (nonlinear_arith)
        requires
            0 <= row < shape.h,
            0 <= col < shape.w,
    ;
    assert(row * shape.w + col >= 0) by (nonlinear_arith)
        requires
            0 <= row,
            0 <= col,
            shape.w > 0,
    ;
}

} // verus!
