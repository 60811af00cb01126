//! The escape-time value of one pixel.

use vstd::prelude::*;
use vstd::arithmetic::power2::{lemma2_to64, lemma_pow2_adds, pow2};
use crate::binary32::Binary32;
use crate::grid::{col_of, coordinate, row_of};
use crate::number::{round_magnitude, unit, Number};
use crate::rounding::{
    lemma_round_bound,
    lemma_round_floor,
    lemma_round_monotone,
    lemma_round_zero,
};

verus! {

/// The real part of the point that column `c` of `w` columns stands for:
/// the columns spread over the interval from -2.5 to 1.
pub open spec fn real_part(c: u32, w: u32) -> Number {
    Number::of_u32(c).quotient(Number::of_u32(w)).product(Number::dyadic(7, 1)).difference(
        Number::dyadic(5, 1),
    )
}

/// The imaginary part of the point that row `r` of `h` rows stands for: the
/// rows spread over the interval from -1 to 1.
pub open spec fn imaginary_part(r: u32, h: u32) -> Number {
    Number::of_u32(r).quotient(Number::of_u32(h)).product(Number::dyadic(2, 0)).difference(
        Number::dyadic(1, 0),
    )
}

/// Whether the point `(x, y)` has not escaped: `x*x + y*y <= 4`.
pub open spec fn within(x: Number, y: Number) -> bool {
    x.product(x).sum(y.product(y)).at_most(Number::dyadic(4, 0))
}

/// The real part after one step of the recurrence: `x*x - y*y + x0`.
pub open spec fn next_x(x: Number, y: Number, x0: Number) -> Number {
    x.product(x).difference(y.product(y)).sum(x0)
}

/// The imaginary part after one step of the recurrence: `2*x*y + y0`.
pub open spec fn next_y(x: Number, y: Number, y0: Number) -> Number {
    Number::dyadic(2, 0).product(x).product(y).sum(y0)
}

/// The number of steps after which the orbit that stands at `(x, y)` after
/// `done` steps has escaped, or `max` where it has not by then.
pub open spec fn escape_count(
    x: Number,
    y: Number,
    x0: Number,
    y0: Number,
    done: nat,
    max: nat,
) -> nat
    decreases max - done,
{
    if done < max && within(x, y) {
        escape_count(next_x(x, y, x0), next_y(x, y, y0), x0, y0, done + 1, max)
    } else {
        done
    }
}

/// The number of steps after which the orbit of the point `(x0, y0)`, begun
/// at the origin, has escaped, or `max` where it has not by then.
pub open spec fn escape_time(x0: Number, y0: Number, max: nat) -> nat {
    escape_count(Number::dyadic(0, 0), Number::dyadic(0, 0), x0, y0, 0, max)
}

/// The count `i` on the scale from 0 to 255: `i * 255 / max_iterations`.
pub open spec fn scaled(i: u32, max_iterations: u32) -> Number {
    Number::of_u32(i).product(Number::dyadic(255, 0)).quotient(Number::of_u32(max_iterations))
}

/// The shade of an orbit that took `i` of at most `max_iterations` steps to
/// escape: 0 where it never did, else `i * 255 / max_iterations` rounded to
/// the nearest whole number.
pub open spec fn grayscale(i: u32, max_iterations: u32) -> u8 {
    if i == max_iterations {
        0
    } else {
        scaled(i, max_iterations).round_half_away().to_u8()
    }
}

/// The shade of the pixel in row `r` and column `c` of an image of `h` rows
/// and `w` columns.
pub open spec fn pixel(r: u32, c: u32, h: u32, w: u32, max_iterations: u32) -> u8 {
    grayscale(
        escape_time(real_part(c, w), imaginary_part(r, h), max_iterations as nat) as u32,
        max_iterations,
    )
}

/// An orbit that stands at the origin and is drawn nowhere stays there for
/// as many steps as it is given.
pub proof fn lemma_orbit_rests(x0: Number, y0: Number, done: nat, max: nat)
    requires
        x0.is_zero(),
        y0.is_zero(),
        done <= max,
    ensures
        escape_count(Number::dyadic(0, 0), Number::dyadic(0, 0), x0, y0, done, max) == max,
    decreases max - done,
{
    let o = Number::dyadic(0, 0);
    vstd::arithmetic::power2::lemma_pow2_pos(149);
    vstd::arithmetic::power2::lemma_pow2_pos(277);
    assert(0 * pow2(149) == 0);
    assert(o == Number::Finite { negative: false, ulps: 0 });
    lemma_round_zero(unit());
    assert(0nat * 0nat == 0);
    assert(o.product(o) == o);
    assert((2 * pow2(149)) * 0 == 0);
    assert(Number::dyadic(2, 0).product(o) == o);
    assert(within(o, o));
    assert(next_x(o, o, x0) == o);
    assert(next_y(o, o, y0) == o);
    if done < max {
        lemma_orbit_rests(x0, y0, done + 1, max);
    }
}

/// The pixel that stands for the point (0, 0) never escapes: its shade is
/// 0 whatever the bound on the steps.
pub proof fn lemma_origin_is_black(r: u32, c: u32, h: u32, w: u32, max_iterations: u32)
    requires
        real_part(c, w).is_zero(),
        imaginary_part(r, h).is_zero(),
    ensures
        pixel(r, c, h, w, max_iterations) == 0,
{
    lemma_orbit_rests(real_part(c, w), imaginary_part(r, h), 0, max_iterations as nat);
}

/// A pixel whose orbit lies outside the circle of radius 2 after its first
/// step has the shade of one step, where more than none is allowed.
pub proof fn lemma_escape_after_one_step(r: u32, c: u32, h: u32, w: u32, max_iterations: u32)
    requires
        max_iterations >= 1,
        !within(
            next_x(Number::dyadic(0, 0), Number::dyadic(0, 0), real_part(c, w)),
            next_y(Number::dyadic(0, 0), Number::dyadic(0, 0), imaginary_part(r, h)),
        ),
    ensures
        pixel(r, c, h, w, max_iterations) == grayscale(1, max_iterations),
{
    let o = Number::dyadic(0, 0);
    let x0 = real_part(c, w);
    let y0 = imaginary_part(r, h);
    vstd::arithmetic::power2::lemma_pow2_pos(149);
    vstd::arithmetic::power2::lemma_pow2_pos(277);
    assert(0 * pow2(149) == 0);
    assert(o == Number::Finite { negative: false, ulps: 0 });
    lemma_round_zero(unit());
    assert(0nat * 0nat == 0);
    assert(o.product(o) == o);
    assert(within(o, o));
    let max = max_iterations as nat;
    assert(escape_count(o, o, x0, y0, 0, max) == escape_count(
        next_x(o, o, x0),
        next_y(o, o, y0),
        x0,
        y0,
        1,
        max,
    ));
    assert(escape_count(next_x(o, o, x0), next_y(o, o, y0), x0, y0, 1, max) == 1);
}

/// An unsigned integer becomes a finite value that is not negative, of at
/// most `2^32`, and of at least 1 unless the integer is 0.
proof fn lemma_of_u32(i: u32) -> (a: nat)
    ensures
        Number::of_u32(i) == (Number::Finite { negative: false, ulps: a }),
        a == round_magnitude(i as nat * unit(), 1),
        a <= pow2(181),
        i >= 1 ==> a >= unit(),
{
    let u = unit();
    lemma2_to64();
    lemma_pow2_adds(32, 149);
    vstd::arithmetic::power2::lemma_pow2_pos(149);
    assert(i as nat * u <= 1 * pow2(181)) by (nonlinear_arith)
        requires
            i < pow2(32),
            pow2(181) == pow2(32) * u,
            u > 0,
    ;
    lemma_round_bound(i as nat * u, 1, 181);
    vstd::arithmetic::power2::lemma_pow2_strictly_increases(181, 277);
    if i >= 1 {
        assert(i as nat * u >= 1 * u) by (nonlinear_arith)
            requires
                i >= 1,
                u > 0,
        ;
        lemma_round_floor(i as nat * u, 1, 149);
    }
    round_magnitude(i as nat * u, 1)
}

/// On the scale from 0 to 255 every count is a finite value that is not
/// negative, and a greater count is no lesser value.
proof fn lemma_scaled_monotone(i: u32, j: u32, max_iterations: u32) -> (c: (nat, nat))
    requires
        i <= j,
        max_iterations >= 1,
    ensures
        scaled(i, max_iterations) == (Number::Finite { negative: false, ulps: c.0 }),
        scaled(j, max_iterations) == (Number::Finite { negative: false, ulps: c.1 }),
        c.0 <= c.1,
{
    let u = unit();
    let f = 255 * u;
    let ai = lemma_of_u32(i);
    let aj = lemma_of_u32(j);
    let m = lemma_of_u32(max_iterations);
    lemma2_to64();
    vstd::arithmetic::power2::lemma_pow2_pos(149);
    vstd::arithmetic::power2::lemma_pow2_strictly_increases(189, 277);
    lemma_pow2_adds(181, 8);
    assert(i as nat * u * 1 <= j as nat * u * 1) by (nonlinear_arith)
        requires
            i <= j,
            u > 0,
    ;
    lemma_round_monotone(i as nat * u, 1, j as nat * u, 1);
    // times 255
    let bi = round_magnitude(ai * f, u);
    let bj = round_magnitude(aj * f, u);
    assert((ai * f) * u <= (aj * f) * u) by (nonlinear_arith)
        requires
            ai <= aj,
            f >= 0,
            u >= 0,
    ;
    lemma_round_monotone(ai * f, u, aj * f, u);
    assert(aj * f <= u * pow2(189)) by (nonlinear_arith)
        requires
            aj <= pow2(181),
            f == 255 * u,
            pow2(189) == pow2(181) * 256,
            u > 0,
    ;
    lemma_round_bound(aj * f, u, 189);
    assert(Number::dyadic(255, 0) == Number::Finite { negative: false, ulps: f });
    // over the bound on the steps
    let ci = round_magnitude(bi * u, m);
    let cj = round_magnitude(bj * u, m);
    assert((bi * u) * m <= (bj * u) * m) by (nonlinear_arith)
        requires
            bi <= bj,
            m >= 0,
            u >= 0,
    ;
    lemma_round_monotone(bi * u, m, bj * u, m);
    assert(bj * u <= m * pow2(189)) by (nonlinear_arith)
        requires
            bj <= pow2(189),
            m >= u,
            u > 0,
    ;
    lemma_round_bound(bj * u, m, 189);
    (ci, cj)
}

/// For one bound on the steps, the shade does not decrease with the number
/// of steps that an orbit takes to escape.
pub proof fn lemma_grayscale_monotone(i: u32, j: u32, max_iterations: u32)
    requires
        i <= j < max_iterations,
    ensures
        grayscale(i, max_iterations) <= grayscale(j, max_iterations),
{
    let u = unit() as int;
    let c = lemma_scaled_monotone(i, j, max_iterations);
    vstd::arithmetic::power2::lemma_pow2_pos(149);
    let ki = (2 * c.0 + u) / (2 * u);
    let kj = (2 * c.1 + u) / (2 * u);
    vstd::arithmetic::div_mod::lemma_div_is_ordered(2 * c.0 + u, 2 * c.1 + u, 2 * u);
    vstd::arithmetic::div_mod::lemma_div_pos_is_pos(2 * c.0 + u, 2 * u);
    vstd::arithmetic::div_mod::lemma_div_multiples_vanish(ki, u);
    vstd::arithmetic::div_mod::lemma_div_multiples_vanish(kj, u);
    vstd::arithmetic::mul::lemma_mul_is_commutative(ki, u);
    vstd::arithmetic::mul::lemma_mul_is_commutative(kj, u);
}

/// The binary32 value `k / 2^halvings` for a `k` of at most 24 bits, from
/// its bit pattern.
fn constant(bits: u32, Ghost(k): Ghost<nat>, Ghost(halvings): Ghost<nat>) -> (r: Binary32)
    requires
        bits < 0x7f80_0000,
        halvings <= 149,
        crate::binary32::magnitude(bits) == k * pow2((149 - halvings) as nat),
    ensures
        r@ == Number::dyadic(k, halvings),
{
    Binary32::from_bits(bits)
}

fn zero() -> (r: Binary32)
    ensures
        r@ == Number::dyadic(0, 0),
{
    proof {
        assert(0 * pow2(149) == 0);
    }
    constant(0, Ghost(0), Ghost(0))
}

fn one() -> (r: Binary32)
    ensures
        r@ == Number::dyadic(1, 0),
{
    proof {
        lemma2_to64();
        lemma_pow2_adds(23, 126);
        assert(1 * pow2(149) == pow2(149));
    }
    constant(0x3f80_0000, Ghost(1), Ghost(0))
}

fn two() -> (r: Binary32)
    ensures
        r@ == Number::dyadic(2, 0),
{
    proof {
        lemma2_to64();
        lemma_pow2_adds(23, 127);
        lemma_pow2_adds(1, 149);
    }
    constant(0x4000_0000, Ghost(2), Ghost(0))
}

fn four() -> (r: Binary32)
    ensures
        r@ == Number::dyadic(4, 0),
{
    proof {
        lemma2_to64();
        lemma_pow2_adds(23, 128);
        lemma_pow2_adds(2, 149);
    }
    constant(0x4080_0000, Ghost(4), Ghost(0))
}

fn two_and_a_half() -> (r: Binary32)
    ensures
        r@ == Number::dyadic(5, 1),
{
    proof {
        lemma2_to64();
        lemma_pow2_adds(21, 127);
        assert(0xa0_0000 * pow2(127) == 5 * (pow2(21) * pow2(127))) by (nonlinear_arith)
            requires
                pow2(21) == 0x20_0000,
        ;
    }
    constant(0x4020_0000, Ghost(5), Ghost(1))
}

fn three_and_a_half() -> (r: Binary32)
    ensures
        r@ == Number::dyadic(7, 1),
{
    proof {
        lemma2_to64();
        lemma_pow2_adds(21, 127);
        assert(0xe0_0000 * pow2(127) == 7 * (pow2(21) * pow2(127))) by (nonlinear_arith)
            requires
                pow2(21) == 0x20_0000,
        ;
    }
    constant(0x4060_0000, Ghost(7), Ghost(1))
}

fn full_scale() -> (r: Binary32)
    ensures
        r@ == Number::dyadic(255, 0),
{
    proof {
        lemma2_to64();
        lemma_pow2_adds(16, 133);
        assert(0xff_0000 * pow2(133) == 255 * (pow2(16) * pow2(133))) by (nonlinear_arith)
            requires
                pow2(16) == 0x1_0000,
        ;
    }
    constant(0x437f_0000, Ghost(255), Ghost(0))
}

/// The shade for an orbit that took `i` of at most `max_iterations` steps
/// to escape.
pub fn iterations_to_grayscale(i: u32, max_iterations: u32) -> (g: u8)
    ensures
        g == grayscale(i, max_iterations),
{
    if i == max_iterations {
        return 0;
    }
    Binary32::from_u32(i).mul(full_scale()).div(Binary32::from_u32(max_iterations)).round().to_u8()
}

/// Whether the point `(x, y)` has not escaped.
fn still_within(x: Binary32, y: Binary32) -> (b: bool)
    ensures
        b == within(x@, y@),
{
    x.mul(x).add(y.mul(y)).le(four())
}

/// The shade of the pixel in row `r` and column `c` of an image of `h` rows
/// and `w` columns, after at most `max_iterations` steps.
pub fn mandelbro_impl(r: u32, c: u32, h: u32, w: u32, max_iterations: u32) -> (g: u8)
    ensures
        g == pixel(r, c, h, w, max_iterations),
{
    let x0 = Binary32::from_u32(c).div(Binary32::from_u32(w)).mul(three_and_a_half()).sub(
        two_and_a_half(),
    );
    let y0 = Binary32::from_u32(r).div(Binary32::from_u32(h)).mul(two()).sub(one());
    let mut x = zero();
    let mut y = zero();
    let mut iteration: u32 = 0;
    while iteration < max_iterations && still_within(x, y)
        invariant
            iteration <= max_iterations,
            escape_count(x@, y@, x0@, y0@, iteration as nat, max_iterations as nat) == escape_time(
                x0@,
                y0@,
                max_iterations as nat,
            ),
        decreases max_iterations - iteration,
    {
        let xtemp = x.mul(x).sub(y.mul(y)).add(x0);
        y = two().mul(x).mul(y).add(y0);
        x = xtemp;
        iteration = iteration + 1;
    }
    iterations_to_grayscale(iteration, max_iterations)
}

/// The work of one work-item of a launch: the shade of the pixel whose flat
/// index is the launch's `offset` plus the work-item's number within the
/// launch, written to the work-item's place `y` in the output.
pub fn mandelbrot(y: &mut u8, offset: u32, item_id: u32, h: u32, w: u32, max_iterations: u32)
    requires
        w > 0,
        offset + item_id <= u32::MAX,
    ensures
        *final(y) == pixel(
            row_of(offset + item_id, w as int) as u32,
            col_of(offset + item_id, w as int) as u32,
            h,
            w,
            max_iterations,
        ),
{
    let idx: u32 = offset + item_id;
    let (r, c) = coordinate(idx, w);
    *y = mandelbro_impl(r, c, h, w, max_iterations);
}

} // verus!
