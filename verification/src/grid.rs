//! Pixels of a `w` by `h` grid, numbered row by row from the top left.
use vstd::arithmetic::div_mod::{lemma_fundamental_div_mod, lemma_fundamental_div_mod_converse};
use vstd::prelude::*;

verus! {

/// The column of pixel `p` in a grid `w` wide.
pub open spec fn col(w: int, p: int) -> int {
    p % w
}

/// The row of pixel `p` in a grid `w` wide.
pub open spec fn row(w: int, p: int) -> int {
    p / w
}

/// Whether two pixels touch along a side or at a corner (or are the same).
pub open spec fn near8(w: int, p: int, q: int) -> bool {
    &&& -1 <= col(w, p) - col(w, q) <= 1
    &&& -1 <= row(w, p) - row(w, q) <= 1
}

/// Whether two pixels share a side.
pub open spec fn near4(w: int, p: int, q: int) -> bool {
    ||| row(w, p) == row(w, q) && (col(w, p) - col(w, q) == 1 || col(w, q) - col(w, p) == 1)
    ||| col(w, p) == col(w, q) && (row(w, p) - row(w, q) == 1 || row(w, q) - row(w, p) == 1)
}

/// Edges between set pixels among the first `n` that touch along a side or at a corner.
pub open spec fn joined8(on: Seq<bool>, w: int, n: int) -> spec_fn(int, int) -> bool {
    |p: int, q: int| 0 <= p < n && 0 <= q < n && on[p] && on[q] && near8(w, p, q)
}

/// Edges between set pixels among the first `n` that share a side.
pub open spec fn joined4(on: Seq<bool>, w: int, n: int) -> spec_fn(int, int) -> bool {
    |p: int, q: int| 0 <= p < n && 0 <= q < n && on[p] && on[q] && near4(w, p, q)
}

/// The number of the pixel in column `x` of row `y`, and that it lies in the grid.
pub proof fn lemma_index(w: int, h: int, x: int, y: int)
    requires
        0 <= x < w,
        0 <= y < h,
    ensures
        0 <= y * w + x < w * h,
        col(w, y * w + x) == x,
        row(w, y * w + x) == y,
        y * w <= w * h,
        0 <= y * w,
{
    assert(0 <= y * w) by (nonlinear_arith)
        requires
            0 <= y,
            0 < w,
    ;
    assert(y * w + x < w * h) by (nonlinear_arith)
        requires
            0 <= x < w,
            0 <= y,
            y + 1 <= h,
    ;
    lemma_fundamental_div_mod_converse(y * w + x, w, y, x);
}

/// The column and the row of a pixel of the grid, and the pixel from them.
pub proof fn lemma_coords(w: int, h: int, p: int)
    requires
        0 < w,
        0 <= p < w * h,
    ensures
        0 <= col(w, p) < w,
        0 <= row(w, p) < h,
        p == row(w, p) * w + col(w, p),
{
    lemma_fundamental_div_mod(p, w);
    let r = row(w, p);
    let c = col(w, p);
    assert(w * r == r * w) by (nonlinear_arith);
    assert(0 <= c < w) by (nonlinear_arith)
        requires
            c == p % w,
            0 < w,
    ;
    assert(0 <= r < h) by (nonlinear_arith)
        requires
            r * w + c == p,
            0 <= c < w,
            0 <= p < w * h,
            0 < w,
    ;
}

/// A row of the grid starts where the row before it ends.
pub proof fn lemma_next_row(w: int, y: int)
    ensures
        (y + 1) * w == y * w + w,
{
    assert((y + 1) * w == y * w + w) by (nonlinear_arith);
}

} // verus!
