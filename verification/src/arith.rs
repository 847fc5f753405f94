use vstd::prelude::*;

verus! {

/// A cell (y, x) of a w-by-h row-major grid has an index inside the grid.
pub proof fn lemma_cell_index(w: int, h: int, y: int, x: int)
    requires
        0 <= y < h,
        0 <= x < w,
    ensures
        0 <= y * w + x < w * h,
        y * w <= y * w + x,
{
    assert(0 <= y * w + x < w * h) by (nonlinear_arith)
        requires
            0 <= y < h,
            0 <= x < w,
    ;
}

/// The row and column of a row-major index are recovered by division and remainder.
pub proof fn lemma_cell_coords(w: int, y: int, x: int)
    requires
        0 <= y,
        0 <= x < w,
    ensures
        (y * w + x) / w == y,
        (y * w + x) % w == x,
{
    vstd::arithmetic::div_mod::lemma_fundamental_div_mod_converse(y * w + x, w, y, x);
}

/// Every index splits into a row and a column.
pub proof fn lemma_index_split(w: int, h: int, i: int)
    requires
        0 < w,
        0 <= i < w * h,
    ensures
        i == (i / w) * w + i % w,
        0 <= i / w < h,
        0 <= i % w < w,
{
    vstd::arithmetic::div_mod::lemma_fundamental_div_mod(i, w);
    vstd::arithmetic::div_mod::lemma_mod_pos_bound(i, w);
    vstd::arithmetic::div_mod::lemma_div_pos_is_pos(i, w);
    assert(i == (i / w) * w + i % w) by (nonlinear_arith)
        requires
            i == w * (i / w) + i % w,
    ;
    assert(i / w < h) by (nonlinear_arith)
        requires
            i == (i / w) * w + i % w,
            0 <= i % w,
            i < w * h,
            0 < w,
    ;
}

/// Dividing a value below `a * b` by `b` gives a value below `a`.
pub proof fn lemma_div_below(x: int, a: int, b: int)
    requires
        0 <= x < a * b,
        0 < b,
    ensures
        0 <= x / b < a,
{
    assert(b * a == a * b) by (nonlinear_arith);
    lemma_index_split(b, a, x);
}

/// Moving one row up or down shifts a row-major index by the width.
pub proof fn lemma_cell_shift(w: int, y: int, x: int)
    ensures
        (y - 1) * w + x == y * w + x - w,
        (y + 1) * w + x == y * w + x + w,
{
    assert((y - 1) * w == y * w - w) by (nonlinear_arith);
    assert((y + 1) * w == y * w + w) by (nonlinear_arith);
}

} // verus!
