//! Arithmetic facts about row-major indices in a grid.
use vstd::prelude::*;

verus! {

/// The coordinates of a row-major index are recovered by division and remainder.
pub proof fn lemma_index_coords(x: int, y: int, w: int)
    requires
        0 <= x < w,
        0 <= y,
    ensures
        (x + w * y) % w == x,
        (x + w * y) / w == y,
{
    assert(x + w * y == y * w + x) by (nonlinear_arith);
    vstd::arithmetic::div_mod::lemma_fundamental_div_mod_converse(x + w * y, w, y, x);
}

/// An index is its remainder plus its quotient times the width.
pub proof fn lemma_coords_index(i: int, w: int)
    requires
        0 <= i,
        0 < w,
    ensures
        i == i % w + w * (i / w),
        0 <= i % w < w,
        0 <= i / w,
        i / w <= i,
{
    vstd::arithmetic::div_mod::lemma_fundamental_div_mod(i, w);
    assert(0 <= i / w) by (nonlinear_arith)
        requires
            0 <= i,
            0 < w,
    ;
    assert(i / w <= i) by (nonlinear_arith)
        requires
            0 <= i,
            0 < w,
    ;
}

/// A coordinate inside a `w` by `h` grid has a row-major index below `w * h`.
pub proof fn lemma_index_bound(x: int, y: int, w: int, h: int)
    requires
        0 <= x < w,
        0 <= y < h,
    ensures
        x + w * y < w * h,
        0 <= x + w * y,
{
    assert(x + w * y < w * h) by (nonlinear_arith)
        requires
            0 <= x < w,
            0 <= y < h,
    ;
    assert(0 <= w * y) by (nonlinear_arith)
        requires
            0 <= w,
            0 <= y,
    ;
}

/// An index below `w * h` lies in a row below `h`.
pub proof fn lemma_row_bound(i: int, w: int, h: int)
    requires
        0 <= i < w * h,
        0 < w,
    ensures
        i / w < h,
        i % w < w,
{
    lemma_coords_index(i, w);
    if i / w >= h {
        assert(w * (i / w) >= w * h) by (nonlinear_arith)
            requires
                i / w >= h,
                0 < w,
        ;
    }
}

/// The product of two numbers of at most 256 fits in seventeen bits.
pub proof fn lemma_byte_product(a: int, b: int)
    requires
        0 <= a <= 256,
        0 <= b <= 256,
    ensures
        0 <= a * b <= 65536,
        0 <= b * a <= 65536,
{
    assert(0 <= a * b <= 65536 && a * b == b * a) by (nonlinear_arith)
        requires
            0 <= a <= 256,
            0 <= b <= 256,
    ;
}

} // verus!
