//! Row-major index arithmetic for a rectangular grid, with the proofs that
//! the coordinate-to-index map is a bijection between the valid coordinates
//! and the valid indices.

use vstd::prelude::*;
use vstd::arithmetic::div_mod::lemma_fundamental_div_mod_converse;

verus! {

/// (x, y) lies on a w-by-h grid.
pub open spec fn grid_valid(w: int, h: int, x: int, y: int) -> bool {
    0 <= x < w && 0 <= y < h
}

/// The row-major flat index of (x, y) on a grid of width w.
pub open spec fn grid_index(w: int, x: int, y: int) -> int {
    y * w + x
}

/// A valid coordinate maps to an index inside the board.
pub proof fn lemma_grid_index_bounds(w: int, h: int, x: int, y: int)
    requires
        grid_valid(w, h, x, y),
    ensures
        0 <= grid_index(w, x, y) < w * h,
{
    assert(0 <= y * w + x < w * h) by (nonlinear_arith)
        requires
            0 <= x < w,
            0 <= y < h,
    ;
}

/// Converting an index back to coordinates undoes the coordinate-to-index
/// map: the inverse direction of the bijection.
pub proof fn lemma_grid_index_inverse(w: int, h: int, x: int, y: int)
    requires
        grid_valid(w, h, x, y),
    ensures
        grid_index(w, x, y) % w == x,
        grid_index(w, x, y) / w == y,
{
    lemma_fundamental_div_mod_converse(y * w + x, w, y, x);
}

/// The coordinate-to-index map is injective over the valid coordinates.
pub proof fn lemma_grid_index_injective(w: int, h: int, x1: int, y1: int, x2: int, y2: int)
    requires
        grid_valid(w, h, x1, y1),
        grid_valid(w, h, x2, y2),
        grid_index(w, x1, y1) == grid_index(w, x2, y2),
    ensures
        x1 == x2 && y1 == y2,
{
    lemma_grid_index_inverse(w, h, x1, y1);
    lemma_grid_index_inverse(w, h, x2, y2);
}

/// Every valid index decomposes into valid coordinates, and the
/// decomposition is undone by the coordinate-to-index map.
pub proof fn lemma_grid_coords_of_index(w: int, h: int, i: int)
    requires
        w >= 1,
        h >= 1,
        0 <= i < w * h,
    ensures
        grid_valid(w, h, i % w, i / w),
        grid_index(w, i % w, i / w) == i,
{
    assert(0 <= i % w < w && 0 <= i / w < h && (i / w) * w + i % w == i) by (nonlinear_arith)
        requires
            w >= 1,
            h >= 1,
            0 <= i < w * h,
    ;
}

} // verus!
