//! The mapping between the flat index of a pixel and its row and column.
//!
//! Every evaluator lays the image out row by row, so the pixel in row `r`
//! and column `c` of an image `w` columns wide has the flat index
//! `r * w + c`.

use vstd::prelude::*;
use vstd::arithmetic::div_mod::{lemma_fundamental_div_mod, lemma_fundamental_div_mod_converse};

verus! {

/// The row of the pixel with flat index `idx` in an image `w` columns wide.
pub open spec fn row_of(idx: int, w: int) -> int {
    idx / w
}

/// The column of the pixel with flat index `idx` in an image `w` columns
/// wide.
pub open spec fn col_of(idx: int, w: int) -> int {
    idx % w
}

/// The flat index of the pixel in row `r` and column `c` of an image `w`
/// columns wide.
pub open spec fn index_of(r: int, c: int, w: int) -> int {
    r * w + c
}

/// Every flat index of an image of `h` rows and `w` columns has its row and
/// its column inside the image, and these two lead back to the index.
pub proof fn lemma_index_round_trip(idx: int, h: int, w: int)
    requires
        0 <= idx < h * w,
        0 <= h,
        0 <= w,
    ensures
        0 <= row_of(idx, w) < h,
        0 <= col_of(idx, w) < w,
        index_of(row_of(idx, w), col_of(idx, w), w) == idx,
{
    assert(w > 0) by (nonlinear_arith)
        requires
            0 <= idx < h * w,
            0 <= w,
    ;
    lemma_fundamental_div_mod(idx, w);
    let r = idx / w;
    let c = idx % w;
    assert(0 <= r < h) by (nonlinear_arith)
        requires
            idx == w * r + c,
            0 <= c < w,
            0 <= idx < h * w,
    ;
    assert(w * r == r * w) by (nonlinear_arith);
}

/// The flat index of a row and a column inside the image lies inside the
/// image and leads back to the row and the column.
pub proof fn lemma_coordinate_round_trip(r: int, c: int, h: int, w: int)
    requires
        0 <= r < h,
        0 <= c < w,
    ensures
        0 <= index_of(r, c, w) < h * w,
        row_of(index_of(r, c, w), w) == r,
        col_of(index_of(r, c, w), w) == c,
{
    lemma_fundamental_div_mod_converse(r * w + c, w, r, c);
    assert(0 <= r * w + c < h * w) by (nonlinear_arith)
        requires
            0 <= r < h,
            0 <= c < w,
    ;
}

/// The row and the column of the pixel with flat index `idx`.
pub fn coordinate(idx: u32, w: u32) -> (rc: (u32, u32))
    requires
        w > 0,
    ensures
        rc.0 == row_of(idx as int, w as int),
        rc.1 == col_of(idx as int, w as int),
{
    (idx / w, idx % w)
}

} // verus!
