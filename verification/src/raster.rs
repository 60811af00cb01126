//! The evaluators that run on the host: one pixel after another, and row by
//! row on a pool of threads.

use vstd::prelude::*;
use rayon::iter::{IntoParallelIterator, ParallelIterator};
use crate::grid::{col_of, lemma_coordinate_round_trip, row_of};
use crate::kernel::{mandelbro_impl, pixel};

verus! {

/// The image of `h` rows and `w` columns as one sequence, row after row.
pub open spec fn raster(h: u32, w: u32, max_iterations: u32) -> Seq<u8> {
    Seq::new(
        (h * w) as nat,
        |i: int| pixel(row_of(i, w as int) as u32, col_of(i, w as int) as u32, h, w, max_iterations),
    )
}

/// Row `r` of the image.
pub open spec fn row(r: u32, h: u32, w: u32, max_iterations: u32) -> Seq<u8> {
    Seq::new(w as nat, |c: int| pixel(r, c as u32, h, w, max_iterations))
}

/// The first `upto` rows of the image laid end to end.
pub open spec fn stacked(h: u32, w: u32, max_iterations: u32, upto: nat) -> Seq<u8>
    decreases upto,
{
    if upto == 0 {
        Seq::empty()
    } else {
        stacked(h, w, max_iterations, (upto - 1) as nat) + row(
            (upto - 1) as u32,
            h,
            w,
            max_iterations,
        )
    }
}

/// The first rows laid end to end are the beginning of the image.
pub proof fn lemma_stacked_is_prefix(h: u32, w: u32, max_iterations: u32, upto: nat)
    requires
        upto <= h,
    ensures
        upto * w <= h * w,
        stacked(h, w, max_iterations, upto) == raster(h, w, max_iterations).take(upto * w),
    decreases upto,
{
    assert(upto * w <= h * w) by (nonlinear_arith)
        requires
            upto <= h,
    ;
    if upto == 0 {
        assert(0 * w == 0);
        assert(stacked(h, w, max_iterations, 0) =~= raster(h, w, max_iterations).take(0));
    } else {
        let before = (upto - 1) as nat;
        lemma_stacked_is_prefix(h, w, max_iterations, before);
        assert(upto * w == before * w + w) by (nonlinear_arith)
            requires
                before == upto - 1,
        ;
        let left = stacked(h, w, max_iterations, upto);
        let right = raster(h, w, max_iterations).take(upto * w);
        assert(left.len() == right.len());
        assert forall|i: int| 0 <= i < left.len() implies left[i] == right[i] by {
            if i >= before * w {
                let c = i - before * w;
                lemma_coordinate_round_trip(before as int, c, h as int, w as int);
            }
        }
        assert(left =~= right);
    }
}

/// The evaluator that works row by row on a pool of threads and the one
/// that works pixel by pixel on one thread return the same bytes: laying
/// the rows of the image end to end gives what taking its pixels one by one
/// in the order of their flat indices gives.
pub proof fn lemma_rows_make_the_raster(h: u32, w: u32, max_iterations: u32)
    ensures
        stacked(h, w, max_iterations, h as nat) == raster(h, w, max_iterations),
{
    lemma_stacked_is_prefix(h, w, max_iterations, h as nat);
    assert(raster(h, w, max_iterations).take(h * w) =~= raster(h, w, max_iterations));
}

/// Row `r` of the image, pixel by pixel.
pub fn render_row(r: u32, h: u32, w: u32, max_iterations: u32) -> (out: Vec<u8>)
    ensures
        out@ == row(r, h, w, max_iterations),
{
    let mut out: Vec<u8> = Vec::new();
    let mut c: u32 = 0;
    while c < w
        invariant
            c <= w,
            out@.len() == c,
            forall|j: int| 0 <= j < c ==> out@[j] == pixel(r, j as u32, h, w, max_iterations),
        decreases w - c,
    {
        out.push(mandelbro_impl(r, c, h, w, max_iterations));
        c = c + 1;
    }
    assert(out@ =~= row(r, h, w, max_iterations));
    out
}

/// The image computed on one thread, one pixel after another in the order
/// of the flat indices.
pub fn naive(h: u32, w: u32, max_iterations: u32) -> (out: Vec<u8>)
    ensures
        out@ == raster(h, w, max_iterations),
{
    let mut out: Vec<u8> = Vec::new();
    let mut r: u32 = 0;
    while r < h
        invariant
            r <= h,
            out@.len() == r * w,
            forall|i: int|
                0 <= i < r * w ==> out@[i] == pixel(
                    row_of(i, w as int) as u32,
                    col_of(i, w as int) as u32,
                    h,
                    w,
                    max_iterations,
                ),
        decreases h - r,
    {
        let mut c: u32 = 0;
        while c < w
            invariant
                r < h,
                c <= w,
                out@.len() == r * w + c,
                forall|i: int|
                    0 <= i < r * w + c ==> out@[i] == pixel(
                        row_of(i, w as int) as u32,
                        col_of(i, w as int) as u32,
                        h,
                        w,
                        max_iterations,
                    ),
            decreases w - c,
        {
            proof {
                lemma_coordinate_round_trip(r as int, c as int, h as int, w as int);
            }
            out.push(mandelbro_impl(r, c, h, w, max_iterations));
            c = c + 1;
        }
        proof {
            assert((r + 1) * w == r * w + w) by (nonlinear_arith);
        }
        r = r + 1;
    }
    assert(out@ =~= raster(h, w, max_iterations));
    out
}

/// The rows of the image, each computed by `render_row` on one of the
/// threads of rayon's pool.
///
/// This is rayon's `into_par_iter` on a range of `u32`, its `map` and its
/// `collect` into a `Vec`. The contract claims what rayon documents of
/// them: the closure runs once for every number of the range, and the
/// results stand in the vector in the order of the range.
#[verifier::external_body]
fn rows_in_parallel(h: u32, w: u32, max_iterations: u32) -> (rows: Vec<Vec<u8>>)
    ensures
        rows@.len() == h,
        forall|r: int|
            0 <= r < h ==> (#[trigger] rows@[r])@ == row(r as u32, h, w, max_iterations),
{
    (0..h).into_par_iter().map(|r| render_row(r, h, w, max_iterations)).collect()
}

/// The image computed row by row on a pool of threads, the rows laid end
/// to end. Its bytes are those of `naive`.
pub fn parallel(h: u32, w: u32, max_iterations: u32) -> (out: Vec<u8>)
    ensures
        out@ == stacked(h, w, max_iterations, h as nat),
        out@ == raster(h, w, max_iterations),
{
    let rows = rows_in_parallel(h, w, max_iterations);
    let mut out: Vec<u8> = Vec::new();
    let mut r: usize = 0;
    while r < rows.len()
        invariant
            r <= rows@.len(),
            rows@.len() == h,
            forall|k: int|
                r <= k < h ==> (#[trigger] rows@[k])@ == row(k as u32, h, w, max_iterations),
            out@ == stacked(h, w, max_iterations, r as nat),
        decreases rows@.len() - r,
    {
        let one = &rows[r];
        let mut c: usize = 0;
        while c < one.len()
            invariant
                c <= one@.len(),
                one@ == row(r as u32, h, w, max_iterations),
                out@ == stacked(h, w, max_iterations, r as nat) + one@.take(c as int),
            decreases one@.len() - c,
        {
            out.push(one[c]);
            c = c + 1;
            assert(out@ =~= stacked(h, w, max_iterations, r as nat) + one@.take(c as int));
        }
        assert(one@.take(c as int) =~= one@);
        r = r + 1;
    }
    proof {
        lemma_rows_make_the_raster(h, w, max_iterations);
    }
    out
}

} // verus!
