//! Binary32 values held as their bit patterns, and their arithmetic in
//! integer operations alone.

use vstd::prelude::*;
use vstd::arithmetic::power2::{
    lemma2_to64,
    lemma2_to64_rest,
    lemma_pow2_adds,
    lemma_pow2_pos,
    lemma_pow2_unfold,
    pow2,
};
use vstd::bits::{lemma_u64_shl_is_mul, lemma_u64_shr_is_div};
use crate::number::{limit, rounded, unit, Number};
use crate::rounding::{
    carries,
    lemma_carried_nothing,
    lemma_carries,
    lemma_carries_quotient,
    lemma_carries_sum,
    lemma_nothing_carried,
    lemma_pow2_increases,
    lemma_round_carried,
    lemma_round_exact,
    lemma_round_overflows,
    lemma_round_zero,
    lemma_significand_bounds,
    lemma_whole,
    lemma_whole_part,
    significand,
    spacing_exponent,
};

verus! {

/// The bit that holds the sign.
pub const SIGN: u32 = 0x8000_0000;

/// The value of the lowest bit of the exponent field, and the hidden bit of
/// a normal significand.
pub const HIDDEN: u32 = 0x80_0000;

/// The bits of positive infinity.
pub const INFINITY: u32 = 0x7f80_0000;

/// The bits of the one `Nan` that the operations return.
pub const NAN: u32 = 0x7fc0_0000;

/// What is left of a bit pattern without its sign.
pub open spec fn rest_of(bits: u32) -> u32 {
    if bits >= SIGN {
        (bits - SIGN) as u32
    } else {
        bits
    }
}

/// The magnitude, in ulps, that the bits below the sign denote where they
/// denote a finite value: the fraction alone while the exponent field is
/// zero, else the fraction under its hidden bit, doubled once for each step
/// of the field above one.
pub open spec fn magnitude(rest: u32) -> nat {
    let field = rest as nat / (HIDDEN as nat);
    let fraction = rest as nat % (HIDDEN as nat);
    if field == 0 {
        fraction
    } else {
        (HIDDEN as nat + fraction) * pow2((field - 1) as nat)
    }
}

/// What the bit pattern `bits` denotes.
pub open spec fn decode(bits: u32) -> Number {
    let negative = bits >= SIGN;
    let rest = rest_of(bits);
    if rest > INFINITY {
        Number::Nan
    } else if rest == INFINITY {
        Number::Infinite { negative }
    } else {
        Number::Finite { negative, ulps: magnitude(rest) }
    }
}

/// The bits of a sign alone.
pub open spec fn sign_bits(negative: bool) -> u32 {
    if negative {
        SIGN
    } else {
        0
    }
}

/// A binary32 value.
#[derive(Clone, Copy, Debug)]
pub struct Binary32 {
    pub bits: u32,
}

impl View for Binary32 {
    type V = Number;

    open spec fn view(&self) -> Number {
        decode(self.bits)
    }
}

/// A significand of at most 24 bits placed over the exponent `qe` of its
/// spacing denotes the significand times the spacing.
pub proof fn lemma_decode_packed(negative: bool, qe: nat, mant: nat)
    requires
        qe <= 253,
        mant <= 0x100_0000,
        qe > 0 ==> mant >= 0x80_0000,
    ensures
        sign_bits(negative) + qe * 0x80_0000 + mant <= u32::MAX,
        decode((sign_bits(negative) + qe * 0x80_0000 + mant) as u32) == if mant * pow2(qe)
            >= limit() {
            Number::Infinite { negative }
        } else {
            Number::Finite { negative, ulps: mant * pow2(qe) }
        },
{
    lemma2_to64();
    lemma_pow2_pos(qe);
    let rest = qe * 0x80_0000 + mant;
    let bits = (sign_bits(negative) + rest) as u32;
    assert(bits >= SIGN <==> negative);
    assert(rest_of(bits) == rest);
    let p = pow2(qe) as int;
    lemma_pow2_adds(24, qe);
    lemma_pow2_adds(23, qe);
    lemma_pow2_increases(24 + qe, 277);
    if mant < 0x80_0000 {
        assert(rest / 0x80_0000 == 0);
        assert(mant * pow2(0) == mant);
        lemma_pow2_increases(23, 277);
    } else if mant < 0x100_0000 {
        assert(rest / 0x80_0000 == qe + 1);
        assert(rest % 0x80_0000 == mant - 0x80_0000);
        assert(mant * p < 0x100_0000 * p) by (nonlinear_arith)
            requires
                mant < 0x100_0000,
                p > 0,
        ;
    } else {
        assert(rest / 0x80_0000 == qe + 2);
        assert(rest % 0x80_0000 == 0);
        lemma_pow2_unfold(qe + 1);
        if qe < 253 {
            lemma_pow2_increases(25 + qe, 277);
            lemma_pow2_adds(24, qe + 1);
            lemma_pow2_unfold(25 + qe);
            assert(0x80_0000 * (2 * p) == 0x100_0000 * p) by (nonlinear_arith);
        }
    }
}

/// The significand and the exponent of a finite magnitude: it is the
/// significand times two to the exponent, in ulps.
fn parts(rest: u32) -> (r: (u64, i32))
    requires
        rest < INFINITY,
    ensures
        r.0 < 0x100_0000,
        0 <= r.1 <= 253,
        r.1 > 0 ==> r.0 >= 0x80_0000,
        rest == r.1 * HIDDEN + r.0,
        magnitude(rest) == r.0 as nat * pow2(r.1 as nat),
        rest == 0 <==> r.0 == 0,
{
    let field: u32 = rest / HIDDEN;
    let fraction: u32 = rest % HIDDEN;
    proof {
        lemma2_to64();
        assert(fraction as nat * 1 == fraction as nat);
    }
    if field == 0 {
        (fraction as u64, 0)
    } else {
        ((fraction + HIDDEN) as u64, (field - 1) as i32)
    }
}

/// Only the bits of zero denote the magnitude zero.
pub proof fn lemma_magnitude_zero(rest: u32)
    requires
        rest < INFINITY,
    ensures
        magnitude(rest) == 0 <==> rest == 0,
{
    let field = rest as nat / (HIDDEN as nat);
    let fraction = rest as nat % (HIDDEN as nat);
    if field > 0 {
        lemma_pow2_pos((field - 1) as nat);
        assert((HIDDEN as nat + fraction) * pow2((field - 1) as nat) > 0) by (nonlinear_arith)
            requires
                pow2((field - 1) as nat) > 0,
                HIDDEN as nat + fraction > 0,
        ;
    }
}

/// The magnitude that the bits below the sign stand for on the number
/// line: the limit for those of an infinity.
pub open spec fn extent(rest: u32) -> nat {
    if rest == INFINITY {
        limit()
    } else {
        magnitude(rest)
    }
}

/// Greater bits below the sign stand for a greater magnitude.
pub proof fn lemma_extent_increases(x: u32, y: u32)
    requires
        x < y <= INFINITY,
    ensures
        extent(x) < extent(y),
{
    lemma2_to64();
    let fx = x as nat / (HIDDEN as nat);
    let rx = x as nat % (HIDDEN as nat);
    let fy = y as nat / (HIDDEN as nat);
    let ry = y as nat % (HIDDEN as nat);
    // each magnitude as a significand times a power of two
    let ex: nat = if fx == 0 { 0 } else { (fx - 1) as nat };
    let mx: nat = if fx == 0 { rx } else { HIDDEN as nat + rx };
    let ey: nat = if fy == 0 { 0 } else { (fy - 1) as nat };
    let my: nat = if fy == 0 { ry } else { HIDDEN as nat + ry };
    assert(mx * pow2(0) == mx && my * pow2(0) == my) by (nonlinear_arith)
        requires
            pow2(0) == 1,
    ;
    assert(extent(x) == mx * pow2(ex));
    assert(extent(y) == my * pow2(ey)) by {
        if y == INFINITY {
            lemma_pow2_adds(23, 254);
        }
    }
    lemma_pow2_pos(ex);
    lemma_pow2_pos(ey);
    let px = pow2(ex) as int;
    let py = pow2(ey) as int;
    if ex == ey {
        assert(mx * px < my * py) by (nonlinear_arith)
            requires
                mx < my,
                px == py,
                px > 0,
        ;
    } else {
        assert(ex < ey);
        lemma_pow2_increases(ex + 1, ey);
        lemma_pow2_unfold(ex + 1);
        assert(mx * px < my * py) by (nonlinear_arith)
            requires
                mx < 0x100_0000,
                my >= 0x80_0000,
                2 * px <= py,
                px > 0,
        ;
    }
}

/// One step of the search for the leading one of `m`: `x` is `m` without
/// its lowest `l - 1` bits and has fewer than `2 * k` bits, of which the
/// step drops the lower `k` if anything stands above them.
fn narrow(x: u64, l: u32, k: u32, Ghost(m): Ghost<u64>) -> (r: (u64, u32))
    requires
        1 <= k <= 32,
        1 <= l,
        l + 2 * k <= 65,
        1 <= x < pow2((2 * k) as nat),
        x as nat == m as nat / pow2((l - 1) as nat),
    ensures
        1 <= r.0 < pow2(k as nat),
        l <= r.1 <= l + k,
        r.0 as nat == m as nat / pow2((r.1 - 1) as nat),
{
    proof {
        lemma2_to64();
        lemma_pow2_increases(k as nat, 32);
        lemma_pow2_pos(k as nat);
        lemma_pow2_pos((l - 1) as nat);
        lemma_pow2_adds((l - 1) as nat, k as nat);
        lemma_pow2_adds(k as nat, k as nat);
        lemma_u64_shl_is_mul(1, k as u64);
        lemma_u64_shr_is_div(x, k as u64);
        vstd::arithmetic::div_mod::lemma_div_denominator(
            m as int,
            pow2((l - 1) as nat) as int,
            pow2(k as nat) as int,
        );
    }
    if x >= (1u64 << (k as u64)) {
        proof {
            let p = pow2(k as nat) as int;
            vstd::arithmetic::div_mod::lemma_fundamental_div_mod(x as int, p);
            let q = x as int / p;
            let rest = x as int % p;
            assert(1 <= q < p) by (nonlinear_arith)
                requires
                    x == p * q + rest,
                    0 <= rest < p,
                    p <= x < p * p,
            ;
        }
        (x >> (k as u64), l + k)
    } else {
        (x, l)
    }
}

/// The number of bits of `m` up to its leading one.
fn bit_length(m: u64) -> (l: u32)
    requires
        m > 0,
    ensures
        1 <= l <= 64,
        pow2((l - 1) as nat) <= m < pow2(l as nat),
{
    proof {
        lemma2_to64();
        lemma2_to64_rest();
        assert(m as nat / 1 == m as nat);
    }
    let (x, l) = narrow(m, 1, 32, Ghost(m));
    let (x, l) = narrow(x, l, 16, Ghost(m));
    let (x, l) = narrow(x, l, 8, Ghost(m));
    let (x, l) = narrow(x, l, 4, Ghost(m));
    let (x, l) = narrow(x, l, 2, Ghost(m));
    let (x, l) = narrow(x, l, 1, Ghost(m));
    proof {
        let p = pow2((l - 1) as nat) as int;
        lemma_pow2_pos((l - 1) as nat);
        lemma_pow2_unfold(l as nat);
        vstd::arithmetic::div_mod::lemma_fundamental_div_mod(m as int, p);
        assert(p * 1 == p);
    }
    l
}

/// The significand `m`, counted in steps of `2^e` ulps, counted anew in
/// steps of `2^qe` ulps and rounded to a whole number of them.
fn scaled_significand(m: u64, e: i32, sticky: bool, l: u32, qe: i32) -> (mant: u64)
    requires
        1 <= l <= 64,
        pow2((l - 1) as nat) <= m < pow2(l as nat),
        -1000 <= e <= 1000,
        qe == spacing_exponent(l as nat, e as int),
    ensures
        mant == significand(m as nat, e as int, sticky, l as nat),
{
    let shift: i32 = qe - e;
    proof {
        lemma2_to64();
        lemma2_to64_rest();
        lemma_significand_bounds(m as nat, e as int, sticky, l as nat);
    }
    if shift <= 0 {
        let s: u64 = (-shift) as u64;
        proof {
            lemma_pow2_pos(s as nat);
            assert(s < 64) by {
                if s >= 64 {
                    lemma_pow2_increases(64, s as nat);
                    assert(m as nat * pow2(s as nat) >= pow2(s as nat)) by (nonlinear_arith)
                        requires
                            m >= 1,
                    ;
                }
            }
            lemma_u64_shl_is_mul(m, s);
        }
        m << s
    } else if shift > 64 {
        proof {
            lemma_pow2_increases(64, (shift - 1) as nat);
            lemma_pow2_increases(64, shift as nat);
            vstd::arithmetic::div_mod::lemma_small_mod(m as nat, pow2(shift as nat));
            vstd::arithmetic::div_mod::lemma_basic_div(m as int, pow2(shift as nat) as int);
        }
        0
    } else if shift == 64 {
        proof {
            vstd::arithmetic::div_mod::lemma_small_mod(m as nat, pow2(shift as nat));
            vstd::arithmetic::div_mod::lemma_basic_div(m as int, pow2(shift as nat) as int);
        }
        if m > 0x8000_0000_0000_0000 || (m == 0x8000_0000_0000_0000 && sticky) {
            1
        } else {
            0
        }
    } else {
        let s: u64 = shift as u64;
        let f: u64 = m >> s;
        let p: u64 = 1u64 << s;
        let h: u64 = 1u64 << ((s - 1) as u64);
        proof {
            lemma_pow2_pos(s as nat);
            lemma_pow2_increases(s as nat, 63);
            lemma_pow2_increases((s - 1) as nat, 63);
            lemma_u64_shr_is_div(m, s);
            lemma_u64_shl_is_mul(1, s);
            lemma_u64_shl_is_mul(1, (s - 1) as u64);
        }
        let r: u64 = m % p;
        if r > h || (r == h && (sticky || f % 2 == 1)) {
            f + 1
        } else {
            f
        }
    }
}

/// The significand `ml` moved down `t` places: what is left of it, and
/// whether anything was lost.
fn moved_down(ml: u64, t: i32) -> (r: (u64, bool))
    requires
        ml < 0x100_0000,
        0 <= t <= 253,
    ensures
        r.0 == ml as nat / pow2(t as nat),
        r.1 == (ml as nat % pow2(t as nat) != 0),
{
    proof {
        lemma2_to64();
    }
    if t >= 24 {
        proof {
            lemma_pow2_increases(24, t as nat);
            vstd::arithmetic::div_mod::lemma_small_mod(ml as nat, pow2(t as nat));
            vstd::arithmetic::div_mod::lemma_basic_div(ml as int, pow2(t as nat) as int);
        }
        (0, ml != 0)
    } else {
        proof {
            lemma_pow2_increases(t as nat, 24);
            lemma_pow2_pos(t as nat);
            lemma_u64_shr_is_div(ml, t as u64);
            lemma_u64_shl_is_mul(1, t as u64);
        }
        let q: u64 = 1u64 << (t as u64);
        (ml >> (t as u64), ml % q != 0)
    }
}

/// The sum of two finite values of the same sign, or the difference of two
/// of opposite signs, the first being the one of greater magnitude, whose
/// sign the result takes unless it is an exact zero.
fn add_ordered(nh: bool, mh: u64, eh: i32, ml: u64, el: i32, same: bool) -> (r: Binary32)
    requires
        mh < 0x100_0000,
        ml < 0x100_0000,
        0 <= el <= eh <= 253,
        eh > 0 ==> mh >= 0x80_0000,
        el == eh ==> ml <= mh,
    ensures
        ml as nat * pow2(el as nat) <= mh as nat * pow2(eh as nat),
        r@ == ({
            let hi = mh as nat * pow2(eh as nat);
            let lo = ml as nat * pow2(el as nat);
            if same {
                if hi + lo == 0 {
                    Number::Finite { negative: nh, ulps: 0 }
                } else {
                    rounded(nh, hi + lo, 1)
                }
            } else {
                if hi == lo {
                    Number::Finite { negative: false, ulps: 0 }
                } else {
                    rounded(nh, (hi - lo) as nat, 1)
                }
            }
        }),
{
    let diff: i32 = eh - el;
    let sh: i32 = if diff < 39 { diff } else { 39 };
    let t: i32 = diff - sh;
    let ghost hi = mh as nat * pow2(eh as nat);
    let ghost lo = ml as nat * pow2(el as nat);
    let ghost n: nat = if same { hi + lo } else { (hi - lo) as nat };
    proof {
        lemma2_to64();
        lemma2_to64_rest();
        lemma_pow2_pos(sh as nat);
        lemma_pow2_increases(sh as nat, 39);
        let ps = pow2(sh as nat) as int;
        assert(mh * ps <= 0x100_0000 * 0x80_0000_0000) by (nonlinear_arith)
            requires
                mh < 0x100_0000,
                0 < ps <= 0x80_0000_0000,
        ;
        lemma_u64_shl_is_mul(mh, sh as u64);
        if diff > 0 {
            lemma_pow2_increases(1, diff as nat);
            let pd = pow2(diff as nat) as int;
            assert(mh * pd >= 0x100_0000) by (nonlinear_arith)
                requires
                    mh >= 0x80_0000,
                    pd >= 2,
            ;
        } else {
            assert(mh as nat * pow2(0) == mh as nat) by (nonlinear_arith)
                requires
                    pow2(0) == 1,
            ;
        }
        if t > 0 {
            assert(mh * ps >= 0x80_0000 * 0x80_0000_0000) by (nonlinear_arith)
                requires
                    mh >= 0x80_0000,
                    ps == 0x80_0000_0000,
            ;
        }
        lemma_carries_sum(mh as nat, eh as nat, ml as nat, el as nat, sh as nat, same);
    }
    let a: u64 = mh << (sh as u64);
    let (b, sb) = moved_down(ml, t);
    proof {
        lemma_pow2_pos(t as nat);
        vstd::arithmetic::div_mod::lemma_div_nonincreasing(ml as int, pow2(t as nat) as int);
    }
    let m: u64 = if same {
        a + b
    } else if sb {
        a - b - 1
    } else {
        a - b
    };
    if m == 0 && !sb {
        proof {
            lemma_carried_nothing((eh - sh) as int, sb, n, 1);
            lemma_magnitude_zero(0);
        }
        return Binary32 { bits: if nh && same { SIGN } else { 0 } };
    }
    proof {
        if n == 0 {
            lemma_nothing_carried((eh - sh) as int, m as nat, sb, 1);
        }
    }
    Binary32::round_pack(nh, m, eh - sh, sb, Ghost(n), Ghost(1))
}

impl Binary32 {
    /// The value with the given bit pattern.
    pub fn from_bits(bits: u32) -> (r: Binary32)
        ensures
            r.bits == bits,
    {
        Binary32 { bits }
    }

    /// The bit pattern of the value.
    pub fn to_bits(self) -> (bits: u32)
        ensures
            bits == self.bits,
    {
        self.bits
    }

    /// Whether the sign bit is set.
    pub fn is_negative(self) -> (negative: bool)
        ensures
            negative == (self.bits >= SIGN),
    {
        self.bits >= SIGN
    }

    /// The bit pattern without its sign.
    fn rest(self) -> (rest: u32)
        ensures
            rest == rest_of(self.bits),
            rest <= 0x7fff_ffff,
    {
        if self.bits >= SIGN {
            self.bits - SIGN
        } else {
            self.bits
        }
    }

    /// Whether the value is not a number.
    pub fn is_nan(self) -> (nan: bool)
        ensures
            nan == (self@ is Nan),
    {
        self.rest() > INFINITY
    }

    /// The unsigned integer `i` as a binary32 value, rounded where it has
    /// more than 24 significant bits.
    pub fn from_u32(i: u32) -> (r: Binary32)
        ensures
            r@ == Number::of_u32(i),
    {
        proof {
            lemma_pow2_pos(149);
            assert(1 * pow2(149) == pow2(149)) by (nonlinear_arith);
            lemma_carries(i as nat, 1, pow2(149), 149, i as nat * unit(), 1);
            assert(i as nat / 1 == i as nat && i as nat % 1 == 0);
        }
        Binary32::round_pack(false, i as u64, 149, false, Ghost(i as nat * unit()), Ghost(1))
    }

    /// `self * rhs`.
    pub fn mul(self, rhs: Binary32) -> (r: Binary32)
        ensures
            r@ == self@.product(rhs@),
    {
        let negative = self.is_negative() != rhs.is_negative();
        let sign: u32 = if negative { SIGN } else { 0 };
        let x = self.rest();
        let y = rhs.rest();
        if x > INFINITY || y > INFINITY {
            return Binary32 { bits: NAN };
        }
        if x == INFINITY || y == INFINITY {
            proof {
                if x < INFINITY {
                    lemma_magnitude_zero(x);
                }
                if y < INFINITY {
                    lemma_magnitude_zero(y);
                }
            }
            if x == 0 || y == 0 {
                return Binary32 { bits: NAN };
            }
            return Binary32 { bits: sign + INFINITY };
        }
        let (ma, ea) = parts(x);
        let (mb, eb) = parts(y);
        let e: i32 = ea + eb - 149;
        let ghost ua = ma as nat * pow2(ea as nat);
        let ghost ub = mb as nat * pow2(eb as nat);
        proof {
            let m = ma as nat * mb as nat;
            let both = pow2((ea + eb) as nat);
            lemma_pow2_adds(ea as nat, eb as nat);
            lemma_pow2_pos((ea + eb) as nat);
            lemma_pow2_pos(149);
            assert(ua * ub == m * both) by (nonlinear_arith)
                requires
                    ua == ma as nat * pow2(ea as nat),
                    ub == mb as nat * pow2(eb as nat),
                    m == ma as nat * mb as nat,
                    both == pow2(ea as nat) * pow2(eb as nat),
            ;
            if e >= 0 {
                lemma_pow2_adds(149, e as nat);
                assert(1 * both == both);
                lemma_carries(m, 1, both, e as int, ua * ub, unit());
            } else {
                lemma_pow2_adds((ea + eb) as nat, (-e) as nat);
                assert(1 * pow2(149) == pow2(149));
                vstd::arithmetic::mul::lemma_mul_is_associative(
                    m as int,
                    both as int,
                    pow2((-e) as nat) as int,
                );
                lemma_carries(m, 1, pow2(149), e as int, ua * ub, unit());
            }
            assert(m / 1 == m && m % 1 == 0);
            assert(ma * mb < 0x100_0000 * 0x100_0000) by (nonlinear_arith)
                requires
                    ma < 0x100_0000,
                    mb < 0x100_0000,
            ;
        }
        Binary32::round_pack(negative, ma * mb, e, false, Ghost(ua * ub), Ghost(unit()))
    }

    /// `self / rhs`.
    pub fn div(self, rhs: Binary32) -> (r: Binary32)
        ensures
            r@ == self@.quotient(rhs@),
    {
        let negative = self.is_negative() != rhs.is_negative();
        let sign: u32 = if negative { SIGN } else { 0 };
        let x = self.rest();
        let y = rhs.rest();
        if x > INFINITY || y > INFINITY {
            return Binary32 { bits: NAN };
        }
        if x == INFINITY {
            if y == INFINITY {
                return Binary32 { bits: NAN };
            }
            return Binary32 { bits: sign + INFINITY };
        }
        proof {
            lemma_magnitude_zero(0);
            lemma_magnitude_zero(x);
            lemma_pow2_pos(277);
        }
        if y == INFINITY {
            return Binary32 { bits: sign };
        }
        proof {
            lemma_magnitude_zero(y);
        }
        if y == 0 {
            if x == 0 {
                return Binary32 { bits: NAN };
            }
            return Binary32 { bits: sign + INFINITY };
        }
        let (ma, ea) = parts(x);
        let (mb, eb) = parts(y);
        if x == 0 {
            proof {
                assert(0 * unit() == 0);
                lemma_round_zero(magnitude(y));
            }
            return Binary32 { bits: sign };
        }
        let la = bit_length(ma);
        let k: u64 = (64 - la) as u64;
        proof {
            lemma2_to64();
            lemma2_to64_rest();
            if la > 24 {
                lemma_pow2_increases(24, (la - 1) as nat);
            }
            lemma_pow2_adds(la as nat, k as nat);
            lemma_pow2_adds((la - 1) as nat, k as nat);
            lemma_pow2_pos(k as nat);
            let p = pow2(k as nat) as int;
            let lo = pow2((la - 1) as nat) as int;
            let hi = pow2(la as nat) as int;
            assert(lo * p <= ma * p < hi * p) by (nonlinear_arith)
                requires
                    lo <= ma < hi,
                    p > 0,
            ;
            lemma_u64_shl_is_mul(ma, k);
            lemma_carries_quotient(ma as nat, ea as nat, mb as nat, eb as nat, k as nat);
            vstd::arithmetic::mul::lemma_mul_is_associative(
                ma as int,
                pow2(ea as nat) as int,
                pow2(149) as int,
            );
        }
        let num: u64 = ma << k;
        let m: u64 = num / mb;
        let left: u64 = num % mb;
        proof {
            vstd::arithmetic::div_mod::lemma_fundamental_div_mod(num as int, mb as int);
            assert(m >= 0x100_0000) by (nonlinear_arith)
                requires
                    num == mb * m + left,
                    left < mb,
                    mb < 0x100_0000,
                    num >= 0x8000_0000_0000_0000,
            ;
        }
        Binary32::round_pack(
            negative,
            m,
            ea + 149 - (k as i32) - eb,
            left != 0,
            Ghost(magnitude(x) * unit()),
            Ghost(magnitude(y)),
        )
    }

    /// `-self`.
    pub fn neg(self) -> (r: Binary32)
        ensures
            r@ == self@.negated(),
    {
        if self.bits >= SIGN {
            Binary32 { bits: self.bits - SIGN }
        } else {
            Binary32 { bits: self.bits + SIGN }
        }
    }

    /// `self + rhs`.
    pub fn add(self, rhs: Binary32) -> (r: Binary32)
        ensures
            r@ == self@.sum(rhs@),
    {
        let na = self.is_negative();
        let nb = rhs.is_negative();
        let x = self.rest();
        let y = rhs.rest();
        if x > INFINITY || y > INFINITY {
            return Binary32 { bits: NAN };
        }
        if x == INFINITY {
            if y == INFINITY && na != nb {
                return Binary32 { bits: NAN };
            }
            return self;
        }
        if y == INFINITY {
            return rhs;
        }
        let (ma, ea) = parts(x);
        let (mb, eb) = parts(y);
        if ea > eb || (ea == eb && ma >= mb) {
            add_ordered(na, ma, ea, mb, eb, na == nb)
        } else {
            add_ordered(nb, mb, eb, ma, ea, na == nb)
        }
    }

    /// `self - rhs`.
    pub fn sub(self, rhs: Binary32) -> (r: Binary32)
        ensures
            r@ == self@.difference(rhs@),
    {
        self.add(rhs.neg())
    }

    /// `self <= rhs`.
    pub fn le(self, rhs: Binary32) -> (b: bool)
        ensures
            b == self@.at_most(rhs@),
    {
        let x = self.rest();
        let y = rhs.rest();
        if x > INFINITY || y > INFINITY {
            return false;
        }
        proof {
            assert(self@.position() == if self.bits >= SIGN {
                -(extent(x) as int)
            } else {
                extent(x) as int
            });
            assert(rhs@.position() == if rhs.bits >= SIGN {
                -(extent(y) as int)
            } else {
                extent(y) as int
            });
            if x < y {
                lemma_extent_increases(x, y);
            }
            if y < x {
                lemma_extent_increases(y, x);
            }
            if 0 < x {
                lemma_extent_increases(0, x);
            }
            if 0 < y {
                lemma_extent_increases(0, y);
            }
            lemma_magnitude_zero(0);
        }
        if self.is_negative() {
            if rhs.is_negative() {
                y <= x
            } else {
                true
            }
        } else {
            if rhs.is_negative() {
                x == 0 && y == 0
            } else {
                x <= y
            }
        }
    }

    /// The nearest whole number, half way cases going away from zero.
    pub fn round(self) -> (r: Binary32)
        ensures
            r@ == self@.round_half_away(),
    {
        let x = self.rest();
        if x >= INFINITY {
            return self;
        }
        let (m, e) = parts(x);
        if e >= 149 {
            proof {
                lemma_whole(m as nat, e as nat);
            }
            return self;
        }
        let s: i32 = 149 - e;
        let whole: u64 = if s >= 26 {
            proof {
                lemma2_to64();
                lemma_pow2_increases(25, (s - 1) as nat);
                lemma_pow2_unfold(s as nat);
                vstd::arithmetic::div_mod::lemma_basic_div(
                    (m + pow2((s - 1) as nat)) as int,
                    pow2(s as nat) as int,
                );
            }
            0
        } else {
            proof {
                lemma2_to64();
                lemma_pow2_increases((s - 1) as nat, 25);
                lemma_pow2_increases(s as nat, 25);
                lemma_u64_shl_is_mul(1, (s - 1) as u64);
                lemma_u64_shr_is_div((m + pow2((s - 1) as nat)) as u64, s as u64);
                lemma_pow2_pos(s as nat);
                lemma_pow2_unfold(s as nat);
                let q = pow2(s as nat) as int;
                let top = m + pow2((s - 1) as nat);
                vstd::arithmetic::div_mod::lemma_fundamental_div_mod(top, q);
                assert(top / q < 0x100_0000) by (nonlinear_arith)
                    requires
                        m < 0x100_0000,
                        top == m + pow2((s - 1) as nat),
                        q == 2 * pow2((s - 1) as nat),
                        pow2((s - 1) as nat) >= 1,
                        top == q * (top / q) + top % q,
                        0 <= top % q,
                ;
            }
            (m + (1u64 << ((s - 1) as u64))) >> (s as u64)
        };
        proof {
            lemma_whole_part(m as nat, e as nat);
            lemma_round_exact(whole as nat, 149);
            lemma2_to64();
            lemma_pow2_adds(24, 149);
            vstd::arithmetic::power2::lemma_pow2_strictly_increases(173, 277);
            assert(whole as nat * pow2(149) <= 0x100_0000 * pow2(149)) by (nonlinear_arith)
                requires
                    whole <= 0x100_0000,
            ;
            assert(whole as nat * unit() < limit());
            assert(decode(x) == Number::Finite { negative: false, ulps: magnitude(x) });
        }
        let r = Binary32::from_u32(whole as u32);
        if self.is_negative() {
            r.neg()
        } else {
            r
        }
    }

    /// The value as a byte: its whole part where that lies between 0 and
    /// 255, the nearer end of that range for any other number, and 0 for a
    /// value that is not a number.
    pub fn to_u8(self) -> (b: u8)
        ensures
            b == self@.to_u8(),
    {
        let x = self.rest();
        if x > INFINITY || self.is_negative() {
            return 0;
        }
        if x == INFINITY {
            return 255;
        }
        let (m, e) = parts(x);
        if e >= 149 {
            proof {
                lemma_whole(m as nat, e as nat);
                lemma_pow2_pos((e - 149) as nat);
                assert(m as nat * pow2((e - 149) as nat) >= 255) by (nonlinear_arith)
                    requires
                        m >= 0x80_0000,
                        pow2((e - 149) as nat) >= 1,
                ;
            }
            return 255;
        }
        let s: i32 = 149 - e;
        proof {
            lemma_whole_part(m as nat, e as nat);
            lemma2_to64();
        }
        if s >= 24 {
            proof {
                lemma_pow2_increases(24, s as nat);
                vstd::arithmetic::div_mod::lemma_basic_div(m as int, pow2(s as nat) as int);
            }
            return 0;
        }
        proof {
            lemma_u64_shr_is_div(m, s as u64);
        }
        let v: u64 = m >> (s as u64);
        if v >= 255 {
            255
        } else {
            v as u8
        }
    }

    /// The value nearest to the magnitude `n / d` ulps that `m`, `e` and
    /// `sticky` carry, with the given sign.
    fn round_pack(
        negative: bool,
        m: u64,
        e: i32,
        sticky: bool,
        Ghost(n): Ghost<nat>,
        Ghost(d): Ghost<nat>,
    ) -> (r: Binary32)
        requires
            d > 0,
            -1000 <= e <= 1000,
            carries(m as nat, e as int, sticky, n, d),
            sticky ==> m >= 0x100_0000,
        ensures
            r@ == rounded(negative, n, d),
    {
        let sign: u32 = if negative { SIGN } else { 0 };
        if m == 0 {
            proof {
                lemma_carried_nothing(e as int, sticky, n, d);
                lemma_decode_packed(negative, 0, 0);
                lemma_pow2_pos(277);
            }
            return Binary32 { bits: sign };
        }
        let l = bit_length(m);
        let top: i32 = l as i32 - 1 + e;
        proof {
            lemma2_to64();
            if sticky && l < 25 {
                lemma_pow2_increases(l as nat, 24);
            }
            lemma_round_carried(m as nat, e as int, sticky, n, d, l as nat);
            lemma_significand_bounds(m as nat, e as int, sticky, l as nat);
        }
        if top >= 277 {
            proof {
                lemma_round_overflows(m as nat, e as int, sticky, l as nat);
                lemma_decode_packed(negative, 253, 0x100_0000);
                lemma_pow2_adds(24, 253);
            }
            return Binary32 { bits: sign + INFINITY };
        }
        let qe: i32 = if top >= 24 { top - 23 } else { 0 };
        let mant = scaled_significand(m, e, sticky, l, qe);
        proof {
            lemma_decode_packed(negative, qe as nat, mant as nat);
            vstd::arithmetic::mul::lemma_mul_is_commutative(mant as int, pow2(qe as nat) as int);
        }
        Binary32 { bits: sign + (qe as u32) * HIDDEN + (mant as u32) }
    }
}

} // verus!
