//! Facts about rounding to the nearest representable magnitude.

use vstd::prelude::*;
use vstd::arithmetic::div_mod::{
    lemma_breakdown,
    lemma_div_denominator,
    lemma_div_is_ordered,
    lemma_div_multiples_vanish,
    lemma_fundamental_div_mod,
    lemma_fundamental_div_mod_converse,
    lemma_mod_multiples_basic,
    lemma_truncate_middle,
};
use vstd::arithmetic::mul::{lemma_mul_is_associative, lemma_mul_is_commutative};
use vstd::arithmetic::power2::{
    lemma2_to64,
    lemma_pow2_adds,
    lemma_pow2_pos,
    lemma_pow2_strictly_increases,
    lemma_pow2_unfold,
    pow2,
};
use crate::number::{nearest_even, round_magnitude, spacing, unit};

verus! {

/// `pow2` does not decrease.
pub proof fn lemma_pow2_increases(a: nat, b: nat)
    requires
        a <= b,
    ensures
        pow2(a) <= pow2(b),
{
    if a < b {
        lemma_pow2_strictly_increases(a, b);
    }
}

/// Dividing a power of two by a smaller one.
pub proof fn lemma_pow2_div(a: nat, b: nat)
    requires
        b <= a,
    ensures
        pow2(a) / pow2(b) == pow2((a - b) as nat),
        pow2(a) % pow2(b) == 0,
{
    lemma_pow2_adds((a - b) as nat, b);
    lemma_pow2_pos(b);
    lemma_div_multiples_vanish(pow2((a - b) as nat) as int, pow2(b) as int);
    lemma_mod_multiples_basic(pow2((a - b) as nat) as int, pow2(b) as int);
    lemma_mul_is_commutative(pow2((a - b) as nat) as int, pow2(b) as int);
}

/// The whole part of `x / 2^s` lies in the binade `s` places below that of
/// `x`, or is zero where `x` is too small.
pub proof fn lemma_binade_shift_down(x: nat, l: nat, s: nat)
    requires
        l >= 1,
        pow2((l - 1) as nat) <= x < pow2(l),
    ensures
        l - 1 >= s ==> pow2((l - 1 - s) as nat) <= x / pow2(s) < pow2((l - s) as nat),
        l <= s ==> x / pow2(s) == 0,
{
    lemma_pow2_pos(s);
    if l - 1 >= s {
        lemma_pow2_div((l - 1) as nat, s);
        lemma_pow2_div(l, s);
        lemma_div_is_ordered(pow2((l - 1) as nat) as int, x as int, pow2(s) as int);
        let p = pow2(s) as int;
        let hi = pow2((l - s) as nat) as int;
        lemma_pow2_adds((l - s) as nat, s);
        lemma_fundamental_div_mod(x as int, p);
        let q = x as int / p;
        let r = x as int % p;
        assert(q < hi) by (nonlinear_arith)
            requires
                p > 0,
                x < hi * p,
                x as int == p * q + r,
                0 <= r,
        ;
    } else {
        lemma_pow2_increases(l, s);
        vstd::arithmetic::div_mod::lemma_basic_div(x as int, pow2(s) as int);
    }
}

/// A magnitude whose whole part is `m * 2^e + r` with `r < 2^e` lies in the
/// binade `e` places above that of `m`.
pub proof fn lemma_binade_shift_up(t: nat, m: nat, l: nat, e: nat)
    requires
        l >= 1,
        pow2((l - 1) as nat) <= m < pow2(l),
        m == t / pow2(e),
    ensures
        pow2((l - 1 + e) as nat) <= t < pow2(l + e),
{
    let p = pow2(e) as int;
    lemma_pow2_pos(e);
    lemma_pow2_adds((l - 1) as nat, e);
    lemma_pow2_adds(l, e);
    lemma_fundamental_div_mod(t as int, p);
    let lo = pow2((l - 1) as nat) as int;
    let hi = pow2(l) as int;
    assert(lo * p <= t < hi * p) by (nonlinear_arith)
        requires
            p > 0,
            lo <= m < hi,
            t as int == p * (m as int) + t as int % p,
            0 <= t as int % p < p,
    ;
}

/// The spacing within a binade: `2^k` for magnitudes from `2^(23+k)` up to
/// `2^(24+k)`, and one ulp for every magnitude under `2^24`.
pub proof fn lemma_spacing(t: nat, k: nat)
    requires
        t < pow2(24 + k),
        k > 0 ==> pow2(23 + k) <= t,
    ensures
        spacing(t) == pow2(k),
    decreases k,
{
    lemma2_to64();
    if k == 0 {
    } else {
        lemma_pow2_unfold(23 + k);
        lemma_pow2_unfold(24 + k);
        lemma_pow2_unfold(k);
        lemma_pow2_increases(24, 23 + k);
        lemma_spacing(t / 2, (k - 1) as nat);
    }
}

/// Rounding to the nearest integer does not depend on the scale of the
/// fraction.
pub proof fn lemma_nearest_even_scaled(n: nat, d: nat, c: nat)
    requires
        d > 0,
        c > 0,
    ensures
        nearest_even(n * c, d * c) == nearest_even(n, d),
{
    lemma_truncate_middle(n as int, c as int, d as int);
    lemma_mul_is_commutative(n as int, c as int);
    lemma_mul_is_commutative(d as int, c as int);
    vstd::arithmetic::div_mod::lemma_div_multiples_vanish_quotient(c as int, n as int, d as int);
    let r = n % d;
    let q = n / d;
    assert((n * c) / (d * c) == q);
    assert((n * c) % (d * c) == c * r);
    assert(2 * (c * r) > d * c <==> 2 * r > d) by (nonlinear_arith)
        requires
            c > 0,
    ;
    assert(2 * (c * r) == d * c <==> 2 * r == d) by (nonlinear_arith)
        requires
            c > 0,
    ;
}

/// A whole number rounds to itself.
pub proof fn lemma_nearest_even_exact(m: nat, d: nat)
    requires
        d > 0,
    ensures
        nearest_even(m * d, d) == m,
{
    lemma_div_multiples_vanish(m as int, d as int);
    lemma_mod_multiples_basic(m as int, d as int);
    lemma_mul_is_commutative(m as int, d as int);
}

/// The integer nearest to `(m + x) / 2^s`, ties to even, where `m` is whole
/// and `sticky` tells whether the fraction `x`, `0 <= x < 1`, is positive.
pub open spec fn round_shifted(m: nat, s: nat, sticky: bool) -> nat {
    let f = m / pow2(s);
    let r = m % pow2(s);
    let h = pow2((s - 1) as nat);
    if r > h || (r == h && (sticky || f % 2 == 1)) {
        f + 1
    } else {
        f
    }
}

/// Rounding `n / (d * 2^s)` needs only the whole part of `n / d` and
/// whether anything is left over.
pub proof fn lemma_nearest_even_sticky(n: nat, d: nat, s: nat)
    requires
        d > 0,
        s >= 1,
    ensures
        nearest_even(n, d * pow2(s)) == round_shifted(n / d, s, n % d != 0),
{
    let p = pow2(s) as int;
    let h = pow2((s - 1) as nat) as int;
    lemma_pow2_pos(s);
    lemma_pow2_pos((s - 1) as nat);
    lemma_pow2_unfold(s);
    assert(p == 2 * h);
    let m = (n / d) as int;
    let left = (n % d) as int;
    let r = m % p;
    let di = d as int;
    lemma_div_denominator(n as int, di, p);
    lemma_breakdown(n as int, di, p);
    assert(n as int / (di * p) == m / p);
    assert(n as int % (di * p) == di * r + left);
    assert(0 <= left < di);
    assert(0 <= r < p);
    if r > h {
        assert(2 * (di * r + left) > di * p) by (nonlinear_arith)
            requires
                r > h,
                p == 2 * h,
                left >= 0,
                di > 0,
        ;
    } else if r < h {
        assert(2 * (di * r + left) < di * p) by (nonlinear_arith)
            requires
                r < h,
                p == 2 * h,
                left < di,
                di > 0,
        ;
    } else {
        assert(2 * (di * r + left) == di * p + 2 * left) by (nonlinear_arith)
            requires
                r == h,
                p == 2 * h,
        ;
    }
}

/// Whether `m`, `e` and `sticky` carry the magnitude `n / d`: `m` is the
/// whole part of `n / d` counted in steps of `2^e` ulps, and `sticky` tells
/// whether anything lies below it.
pub open spec fn carries(m: nat, e: int, sticky: bool, n: nat, d: nat) -> bool {
    if e >= 0 {
        m == n / (d * pow2(e as nat)) && sticky == (n % (d * pow2(e as nat)) != 0)
    } else {
        m == (n * pow2((-e) as nat)) / d && sticky == ((n * pow2((-e) as nat)) % d != 0)
    }
}

/// A magnitude `n / d` that equals `x / y` counted in steps of `2^e` ulps is
/// carried by the whole part of `x / y`.
pub proof fn lemma_carries(x: nat, y: nat, c: nat, e: int, n: nat, d: nat)
    requires
        y > 0,
        c > 0,
        e >= 0 ==> n == x * c && d * pow2(e as nat) == y * c,
        e < 0 ==> n * pow2((-e) as nat) == x * c && d == y * c,
    ensures
        carries(x / y, e, x % y != 0, n, d),
{
    lemma_truncate_middle(x as int, c as int, y as int);
    lemma_mul_is_commutative(x as int, c as int);
    lemma_mul_is_commutative(y as int, c as int);
    vstd::arithmetic::div_mod::lemma_div_multiples_vanish_quotient(c as int, x as int, y as int);
    let r = x % y;
    assert((x * c) / (y * c) == x / y);
    assert((x * c) % (y * c) == c * r);
    assert(c * r != 0 <==> r != 0) by (nonlinear_arith)
        requires
            c > 0,
    ;
}

/// The sum or the difference of two magnitudes, `mh * 2^eh` and the lesser
/// `ml * 2^el`, is carried in steps of `2^(eh - sh)` ulps by the greater
/// significand moved up `sh` places and the lesser moved down the rest of
/// the way, with whatever the lesser loses there made sticky.
pub proof fn lemma_carries_sum(mh: nat, eh: nat, ml: nat, el: nat, sh: nat, same: bool)
    requires
        el + sh <= eh,
        ml <= mh * pow2((eh - el) as nat),
    ensures
        ({
            let t = (eh - el - sh) as nat;
            let a = mh * pow2(sh);
            let b = ml / pow2(t);
            let sb = ml % pow2(t) != 0;
            let hi = mh * pow2(eh);
            let lo = ml * pow2(el);
            let m = if same {
                (a + b) as int
            } else {
                a - b - (if sb {
                    1int
                } else {
                    0int
                })
            };
            &&& lo <= hi
            &&& m >= 0
            &&& carries(
                m as nat,
                (eh - sh) as int,
                sb,
                if same {
                    hi + lo
                } else {
                    (hi - lo) as nat
                },
                1,
            )
        }),
{
    let t = (eh - el - sh) as nat;
    let q = pow2(t);
    let c = pow2(el);
    let a = mh * pow2(sh);
    let b = ml / q;
    let r = ml % q;
    let hi = mh * pow2(eh);
    let lo = ml * pow2(el);
    lemma_pow2_pos(t);
    lemma_pow2_pos(el);
    lemma_pow2_pos(sh);
    lemma_pow2_adds(sh, t);
    lemma_pow2_adds(sh + t, el);
    lemma_pow2_adds(t, el);
    lemma_fundamental_div_mod(ml as int, q as int);
    assert(hi == a * q * c) by (nonlinear_arith)
        requires
            hi == mh * pow2(eh),
            a == mh * pow2(sh),
            pow2(eh) == pow2(sh) * q * c,
    ;
    assert(a * q == mh * pow2((eh - el) as nat)) by (nonlinear_arith)
        requires
            a == mh * pow2(sh),
            pow2((eh - el) as nat) == pow2(sh) * q,
    ;
    assert(1 * pow2((eh - sh) as nat) == q * c);
    assert(lo <= hi) by (nonlinear_arith)
        requires
            hi == a * q * c,
            lo == ml * c,
            ml <= a * q,
            c > 0,
    ;
    if same {
        let x = a * q + ml;
        assert(hi + lo == x * c) by (nonlinear_arith)
            requires
                hi == a * q * c,
                lo == ml * c,
                x == a * q + ml,
        ;
        assert(x == (a + b) * q + r) by (nonlinear_arith)
            requires
                x == a * q + ml,
                ml == q * b + r,
        ;
        lemma_fundamental_div_mod_converse(x as int, q as int, (a + b) as int, r as int);
        lemma_carries(x, q, c, (eh - sh) as int, hi + lo, 1);
    } else {
        let x = (a * q - ml) as nat;
        assert(hi - lo == x * c) by (nonlinear_arith)
            requires
                hi == a * q * c,
                lo == ml * c,
                x == a * q - ml,
        ;
        assert(x * c >= 0) by (nonlinear_arith)
            requires
                x >= 0,
                c >= 0,
        ;
        if r == 0 {
            assert(x == (a - b) * q + 0) by (nonlinear_arith)
                requires
                    x == a * q - ml,
                    ml == q * b + r,
                    r == 0,
            ;
            assert(a - b >= 0) by (nonlinear_arith)
                requires
                    x == (a - b) * q + 0,
                    x >= 0,
                    q > 0,
            ;
            lemma_fundamental_div_mod_converse(x as int, q as int, a - b, 0);
        } else {
            assert(x == (a - b - 1) * q + (q - r)) by (nonlinear_arith)
                requires
                    x == a * q - ml,
                    ml == q * b + r,
            ;
            assert(a - b - 1 >= 0) by (nonlinear_arith)
                requires
                    x == (a - b - 1) * q + (q - r),
                    x >= 0,
                    q > 0,
                    0 < q - r < q,
            ;
            lemma_fundamental_div_mod_converse(x as int, q as int, a - b - 1, q - r);
        }
        lemma_carries(x, q, c, (eh - sh) as int, (hi - lo) as nat, 1);
    }
}

/// The quotient of the magnitudes `ma * 2^ea` and `mb * 2^eb`, in ulps, is
/// carried by the whole part of `ma * 2^k / mb`.
pub proof fn lemma_carries_quotient(ma: nat, ea: nat, mb: nat, eb: nat, k: nat)
    requires
        mb > 0,
        k <= ea + 149,
    ensures
        carries(
            (ma * pow2(k)) / mb,
            ea + 149 - k - eb,
            (ma * pow2(k)) % mb != 0,
            ma * pow2(ea) * pow2(149),
            mb * pow2(eb),
        ),
{
    let e = ea + 149 - k - eb;
    let x = ma * pow2(k);
    let n = ma * pow2(ea) * pow2(149);
    let d = mb * pow2(eb);
    lemma_pow2_pos(eb);
    lemma_pow2_adds(ea, 149);
    if e >= 0 {
        let c = pow2((ea + 149 - k) as nat);
        lemma_pow2_pos((ea + 149 - k) as nat);
        lemma_pow2_adds(k, (ea + 149 - k) as nat);
        lemma_pow2_adds(eb, e as nat);
        assert(n == x * c) by (nonlinear_arith)
            requires
                n == ma * pow2(ea) * pow2(149),
                x == ma * pow2(k),
                pow2(ea) * pow2(149) == pow2(k) * c,
        ;
        assert(d * pow2(e as nat) == mb * c) by (nonlinear_arith)
            requires
                d == mb * pow2(eb),
                c == pow2(eb) * pow2(e as nat),
        ;
        lemma_carries(x, mb, c, e, n, d);
    } else {
        let c = pow2(eb);
        lemma_pow2_adds(ea + 149, (-e) as nat);
        lemma_pow2_adds(k, eb);
        assert(n * pow2((-e) as nat) == x * c) by (nonlinear_arith)
            requires
                n == ma * pow2(ea) * pow2(149),
                x == ma * pow2(k),
                pow2(ea) * pow2(149) * pow2((-e) as nat) == pow2(k) * c,
        ;
        lemma_carries(x, mb, c, e, n, d);
    }
}

/// The exponent of the spacing at a magnitude whose leading bit is bit
/// `l - 1` of a significand counted in steps of `2^e` ulps.
pub open spec fn spacing_exponent(l: nat, e: int) -> nat {
    if l + e >= 25 {
        (l + e - 24) as nat
    } else {
        0
    }
}

/// The magnitude carried by `m`, `e` and `sticky`, counted in steps of the
/// spacing and rounded to a whole number of them.
pub open spec fn significand(m: nat, e: int, sticky: bool, l: nat) -> nat {
    let qe = spacing_exponent(l, e);
    if qe <= e {
        m * pow2((e - qe) as nat)
    } else {
        round_shifted(m, (qe - e) as nat, sticky)
    }
}

proof fn lemma_carried_spacing(m: nat, e: int, sticky: bool, n: nat, d: nat, l: nat)
    requires
        d > 0,
        l >= 1,
        pow2((l - 1) as nat) <= m < pow2(l),
        carries(m, e, sticky, n, d),
    ensures
        spacing(n / d) == pow2(spacing_exponent(l, e)),
{
    let t = n / d;
    let qe = spacing_exponent(l, e);
    lemma2_to64();
    if e >= 0 {
        let p = pow2(e as nat);
        lemma_pow2_pos(e as nat);
        lemma_div_denominator(n as int, d as int, p as int);
        assert(m == t / p);
        lemma_binade_shift_up(t, m, l, e as nat);
        if l + e >= 25 {
            lemma_spacing(t, qe);
        } else {
            lemma_pow2_increases((l + e) as nat, 24);
            lemma_spacing(t, 0);
        }
    } else {
        let c = pow2((-e) as nat);
        lemma_pow2_pos((-e) as nat);
        let big = n * c;
        lemma_div_multiples_vanish(n as int, c as int);
        lemma_mul_is_commutative(n as int, c as int);
        assert(big / c == n);
        lemma_div_denominator(big as int, c as int, d as int);
        lemma_div_denominator(big as int, d as int, c as int);
        lemma_mul_is_commutative(c as int, d as int);
        assert(t == m / c);
        lemma_binade_shift_down(m, l, (-e) as nat);
        if l + e >= 25 {
            lemma_spacing(t, qe);
        } else if l - 1 >= -e {
            lemma_pow2_increases((l + e) as nat, 24);
            lemma_spacing(t, 0);
        } else {
            lemma_spacing(t, 0);
        }
    }
}

proof fn lemma_carried_nearest(m: nat, e: int, sticky: bool, n: nat, d: nat, l: nat)
    requires
        d > 0,
        l >= 1,
        pow2((l - 1) as nat) <= m < pow2(l),
        carries(m, e, sticky, n, d),
        sticky ==> l >= 25,
    ensures
        nearest_even(n, d * pow2(spacing_exponent(l, e))) == significand(m, e, sticky, l),
{
    let qe = spacing_exponent(l, e);
    lemma_pow2_pos(qe);
    if e >= 0 {
        let d0 = d * pow2(e as nat);
        lemma_pow2_pos(e as nat);
        assert(d0 > 0) by (nonlinear_arith)
            requires
                d0 == d * pow2(e as nat),
                d > 0,
                pow2(e as nat) > 0,
        ;
        if qe > e {
            let s = (qe - e) as nat;
            lemma_pow2_adds(e as nat, s);
            lemma_mul_is_associative(d as int, pow2(e as nat) as int, pow2(s) as int);
            lemma_nearest_even_sticky(n, d0, s);
        } else {
            let s = (e - qe) as nat;
            let dq = d * pow2(qe);
            lemma_pow2_adds(qe, s);
            lemma_mul_is_associative(d as int, pow2(qe) as int, pow2(s) as int);
            assert(d0 == dq * pow2(s));
            lemma_fundamental_div_mod(n as int, d0 as int);
            assert(n == m * pow2(s) * dq) by (nonlinear_arith)
                requires
                    n == d0 * m,
                    d0 == dq * pow2(s),
            ;
            assert(dq > 0) by (nonlinear_arith)
                requires
                    dq == d * pow2(qe),
                    d > 0,
                    pow2(qe) > 0,
            ;
            lemma_nearest_even_exact(m * pow2(s), dq);
        }
    } else {
        let c = pow2((-e) as nat);
        lemma_pow2_pos((-e) as nat);
        let s = (qe - e) as nat;
        let dq = d * pow2(qe);
        assert(dq > 0) by (nonlinear_arith)
            requires
                dq == d * pow2(qe),
                d > 0,
                pow2(qe) > 0,
        ;
        lemma_nearest_even_scaled(n, dq, c);
        lemma_pow2_adds(qe, (-e) as nat);
        lemma_mul_is_associative(d as int, pow2(qe) as int, c as int);
        assert(dq * c == d * pow2(s));
        lemma_nearest_even_sticky(n * c, d, s);
    }
}

/// The bounds of the rounded significand: at most `2^24`, and at least
/// `2^23` wherever the spacing is more than one ulp.
pub proof fn lemma_significand_bounds(m: nat, e: int, sticky: bool, l: nat)
    requires
        l >= 1,
        pow2((l - 1) as nat) <= m < pow2(l),
    ensures
        significand(m, e, sticky, l) <= 0x100_0000,
        spacing_exponent(l, e) > 0 ==> significand(m, e, sticky, l) >= 0x80_0000,
{
    let qe = spacing_exponent(l, e);
    lemma2_to64();
    if qe <= e {
        let s = (e - qe) as nat;
        lemma_pow2_adds(l, s);
        lemma_pow2_adds((l - 1) as nat, s);
        lemma_pow2_pos(s);
        let p = pow2(s) as int;
        let lo = pow2((l - 1) as nat) as int;
        let hi = pow2(l) as int;
        assert(lo * p <= m * p < hi * p) by (nonlinear_arith)
            requires
                lo <= m < hi,
                p > 0,
        ;
        if qe > 0 {
            assert(l + s == 24);
        } else {
            lemma_pow2_increases(l + s, 24);
        }
    } else {
        let s = (qe - e) as nat;
        lemma_binade_shift_down(m, l, s);
        if qe > 0 {
            assert(l - s == 24);
        } else if l - 1 >= s {
            lemma_pow2_increases((l - s) as nat, 24);
        }
    }
}

/// Rounding a carried magnitude: the spacing is `2^qe` for the exponent
/// `qe` that the position of the leading bit gives, and the result is the
/// rounded significand times that spacing.
pub proof fn lemma_round_carried(m: nat, e: int, sticky: bool, n: nat, d: nat, l: nat)
    requires
        d > 0,
        l >= 1,
        pow2((l - 1) as nat) <= m < pow2(l),
        carries(m, e, sticky, n, d),
        sticky ==> l >= 25,
    ensures
        round_magnitude(n, d) == pow2(spacing_exponent(l, e)) * significand(m, e, sticky, l),
{
    lemma_carried_spacing(m, e, sticky, n, d, l);
    lemma_carried_nearest(m, e, sticky, n, d, l);
}

/// A magnitude of nothing rounds to nothing.
pub proof fn lemma_round_zero(d: nat)
    requires
        d > 0,
    ensures
        round_magnitude(0, d) == 0,
{
    vstd::arithmetic::div_mod::lemma_div_of0(d as int);
    vstd::arithmetic::div_mod::lemma_small_mod(0, d);
    assert(0nat / d == 0);
    assert(spacing(0) == 1);
    assert(d * 1 == d);
}

/// A carried magnitude whose whole part is zero, with nothing below it, is
/// zero and rounds to zero.
pub proof fn lemma_carried_nothing(e: int, sticky: bool, n: nat, d: nat)
    requires
        d > 0,
        carries(0, e, sticky, n, d),
        !sticky,
    ensures
        n == 0,
        round_magnitude(n, d) == 0,
{
    if e >= 0 {
        let d0 = d * pow2(e as nat);
        lemma_pow2_pos(e as nat);
        assert(d0 > 0) by (nonlinear_arith)
            requires
                d0 == d * pow2(e as nat),
                d > 0,
                pow2(e as nat) > 0,
        ;
        lemma_fundamental_div_mod(n as int, d0 as int);
        assert(d0 * 0 == 0);
    } else {
        let c = pow2((-e) as nat);
        lemma_pow2_pos((-e) as nat);
        lemma_fundamental_div_mod((n * c) as int, d as int);
        assert(d * 0 == 0);
        assert(n == 0) by (nonlinear_arith)
            requires
                n * c == 0,
                c > 0,
        ;
    }
    lemma_round_zero(d);
}

/// What carries the magnitude zero is zero, with nothing below it.
pub proof fn lemma_nothing_carried(e: int, m: nat, sticky: bool, d: nat)
    requires
        d > 0,
        carries(m, e, sticky, 0, d),
    ensures
        m == 0,
        !sticky,
{
    if e >= 0 {
        let d0 = d * pow2(e as nat);
        lemma_pow2_pos(e as nat);
        assert(d0 > 0) by (nonlinear_arith)
            requires
                d0 == d * pow2(e as nat),
                d > 0,
                pow2(e as nat) > 0,
        ;
        vstd::arithmetic::div_mod::lemma_div_of0(d0 as int);
        vstd::arithmetic::div_mod::lemma_small_mod(0, d0);
    } else {
        assert(0 * pow2((-e) as nat) == 0);
        vstd::arithmetic::div_mod::lemma_div_of0(d as int);
        vstd::arithmetic::div_mod::lemma_small_mod(0, d);
    }
}

/// A carried magnitude whose leading bit stands at `2^277` ulps or above
/// rounds to the limit or beyond.
pub proof fn lemma_round_overflows(m: nat, e: int, sticky: bool, l: nat)
    requires
        l >= 1,
        pow2((l - 1) as nat) <= m < pow2(l),
        l - 1 + e >= 277,
    ensures
        pow2(spacing_exponent(l, e)) * significand(m, e, sticky, l) >= pow2(277),
{
    let qe = spacing_exponent(l, e);
    let sig = significand(m, e, sticky, l);
    lemma_significand_bounds(m, e, sticky, l);
    lemma2_to64();
    lemma_pow2_increases(277, qe + 23);
    lemma_pow2_adds(qe, 23);
    let p = pow2(qe) as int;
    assert(p * sig >= p * 0x80_0000) by (nonlinear_arith)
        requires
            sig >= 0x80_0000,
            p >= 0,
    ;
}

/// A magnitude of fewer than 25 bits is representable at any exponent up to
/// the limit: rounding leaves it as it is.
pub proof fn lemma_round_exact(m: nat, e: nat)
    requires
        m < 0x100_0000,
    ensures
        round_magnitude(m * pow2(e), 1) == m * pow2(e),
{
    lemma2_to64();
    lemma_pow2_pos(e);
    if m == 0 {
        assert(0 * pow2(e) == 0);
        lemma_round_zero(1);
    } else {
        lemma_bit_length_exists(m, 24);
        let l = choose|l: nat| 1 <= l <= 24 && pow2((l - 1) as nat) <= m < #[trigger] pow2(l);
        assert(1 * pow2(e) == pow2(e));
        lemma_carries(m, 1, pow2(e), e as int, m * pow2(e), 1);
        assert(m / 1 == m && m % 1 == 0);
        lemma_round_carried(m, e as int, false, m * pow2(e), 1, l);
        let qe = spacing_exponent(l, e as int);
        assert(qe <= e);
        lemma_pow2_adds(qe, (e - qe) as nat);
        lemma_mul_is_associative(m as int, pow2((e - qe) as nat) as int, pow2(qe) as int);
        lemma_mul_is_commutative(pow2(qe) as int, (m * pow2((e - qe) as nat)) as int);
        lemma_mul_is_commutative(pow2(qe) as int, pow2((e - qe) as nat) as int);
    }
}

/// Every positive number under `2^k` has a leading bit.
pub proof fn lemma_bit_length_exists(m: nat, k: nat)
    requires
        0 < m < pow2(k),
    ensures
        exists|l: nat| 1 <= l <= k && pow2((l - 1) as nat) <= m < #[trigger] pow2(l),
    decreases k,
{
    lemma2_to64();
    if k == 0 {
    } else if m >= pow2((k - 1) as nat) {
        assert(1 <= k <= k && pow2((k - 1) as nat) <= m < pow2(k));
    } else {
        lemma_bit_length_exists(m, (k - 1) as nat);
        let l = choose|l: nat| 1 <= l <= k - 1 && pow2((l - 1) as nat) <= m < #[trigger] pow2(l);
        assert(1 <= l <= k && pow2((l - 1) as nat) <= m < pow2(l));
    }
}

/// The whole part of a magnitude under `2^149` places of exponent, and its
/// whole part after half a unit is added.
pub proof fn lemma_whole_part(m: nat, e: nat)
    requires
        e < 149,
    ensures
        (m * pow2(e)) / unit() == m / pow2((149 - e) as nat),
        (2 * (m * pow2(e)) + unit()) / (2 * unit()) == (m + pow2((148 - e) as nat)) / pow2(
            (149 - e) as nat,
        ),
{
    let s = (149 - e) as nat;
    let c = pow2(e);
    let q = pow2(s);
    let h = pow2((s - 1) as nat);
    lemma_pow2_pos(e);
    lemma_pow2_pos(s);
    lemma_pow2_pos((s - 1) as nat);
    lemma_pow2_adds(e, s);
    lemma_pow2_unfold(s);
    lemma_mul_is_commutative(c as int, q as int);
    vstd::arithmetic::div_mod::lemma_div_multiples_vanish_quotient(c as int, m as int, q as int);
    lemma_mul_is_commutative(m as int, c as int);
    assert((m * c) / unit() == m / q);
    let c2 = 2 * c;
    assert(2 * (m * c) + unit() == c2 * (m + h)) by (nonlinear_arith)
        requires
            unit() == c * q,
            q == 2 * h,
            c2 == 2 * c,
    ;
    assert(2 * unit() == c2 * q) by (nonlinear_arith)
        requires
            unit() == c * q,
            c2 == 2 * c,
    ;
    vstd::arithmetic::div_mod::lemma_div_multiples_vanish_quotient(
        c2 as int,
        (m + h) as int,
        q as int,
    );
}

/// A magnitude with at least `2^149` places of exponent is whole.
pub proof fn lemma_whole(m: nat, e: nat)
    requires
        e >= 149,
    ensures
        (m * pow2(e)) / unit() == m * pow2((e - 149) as nat),
        ((2 * (m * pow2(e)) + unit()) / (2 * unit())) * unit() == m * pow2(e),
{
    let k = m * pow2((e - 149) as nat);
    let u = unit();
    lemma_pow2_pos(149);
    lemma_pow2_adds((e - 149) as nat, 149);
    assert(m * pow2(e) == k * u) by (nonlinear_arith)
        requires
            k == m * pow2((e - 149) as nat),
            pow2(e) == pow2((e - 149) as nat) * u,
    ;
    lemma_div_multiples_vanish(k as int, u as int);
    lemma_mul_is_commutative(k as int, u as int);
    assert(2 * (k * u) + u == (2 * u) * k + u) by (nonlinear_arith);
    lemma_fundamental_div_mod_converse((2 * (k * u) + u) as int, (2 * u) as int, k as int, u as int);
}

/// What rounding means: the result is a whole number of spacings, and it
/// lies no farther from the magnitude `n / d` than half a spacing.
pub proof fn lemma_round_is_nearest(n: nat, d: nat)
    requires
        d > 0,
    ensures
        round_magnitude(n, d) % spacing(n / d) == 0,
        2 * (round_magnitude(n, d) * d - n) <= spacing(n / d) * d,
        2 * (n - round_magnitude(n, d) * d) <= spacing(n / d) * d,
{
    let k = lemma_binade(n / d);
    let q = pow2(k);
    lemma_pow2_pos(k);
    let dq = d * q;
    assert(dq > 0) by (nonlinear_arith)
        requires
            dq == d * q,
            d > 0,
            q > 0,
    ;
    let f = n / dq;
    let r = n % dq;
    let near = nearest_even(n, dq);
    lemma_fundamental_div_mod(n as int, dq as int);
    lemma_mod_multiples_basic(near as int, q as int);
    lemma_mul_is_commutative(near as int, q as int);
    assert((q * near) * d == near * dq) by (nonlinear_arith)
        requires
            dq == d * q,
    ;
    assert(q * d == dq) by (nonlinear_arith)
        requires
            dq == d * q,
    ;
    if near == f + 1 {
        assert(near * dq - n == dq - r) by (nonlinear_arith)
            requires
                near == f + 1,
                n == dq * f + r,
        ;
    } else {
        assert(n - near * dq == r) by (nonlinear_arith)
            requires
                near == f,
                n == dq * f + r,
        ;
    }
}

/// A lesser fraction has no greater whole part.
pub proof fn lemma_floor_monotone(n1: nat, d1: nat, n2: nat, d2: nat)
    requires
        d1 > 0,
        d2 > 0,
        n1 * d2 <= n2 * d1,
    ensures
        n1 / d1 <= n2 / d2,
{
    let f1 = (n1 / d1) as int;
    let f2 = (n2 / d2) as int;
    lemma_fundamental_div_mod(n1 as int, d1 as int);
    lemma_fundamental_div_mod(n2 as int, d2 as int);
    if f1 > f2 {
        assert(n1 * d2 >= (f2 + 1) * d1 * d2) by (nonlinear_arith)
            requires
                n1 >= d1 * f1,
                f1 >= f2 + 1,
                d1 > 0,
                d2 > 0,
        ;
        assert(n2 * d1 < (f2 + 1) * d1 * d2) by (nonlinear_arith)
            requires
                n2 < d2 * f2 + d2,
                d1 > 0,
                d2 > 0,
        ;
    }
}

/// Rounding to the nearest integer keeps the order of fractions.
pub proof fn lemma_nearest_even_monotone(n1: nat, d1: nat, n2: nat, d2: nat)
    requires
        d1 > 0,
        d2 > 0,
        n1 * d2 <= n2 * d1,
    ensures
        nearest_even(n1, d1) <= nearest_even(n2, d2),
{
    let f1 = (n1 / d1) as int;
    let f2 = (n2 / d2) as int;
    let r1 = (n1 % d1) as int;
    let r2 = (n2 % d2) as int;
    lemma_floor_monotone(n1, d1, n2, d2);
    lemma_fundamental_div_mod(n1 as int, d1 as int);
    lemma_fundamental_div_mod(n2 as int, d2 as int);
    if f1 == f2 {
        assert(r1 * d2 <= r2 * d1) by (nonlinear_arith)
            requires
                n1 == d1 * f1 + r1,
                n2 == d2 * f1 + r2,
                n1 * d2 <= n2 * d1,
        ;
        if 2 * r1 >= d1 {
            assert(2 * r2 >= d2) by (nonlinear_arith)
                requires
                    r1 * d2 <= r2 * d1,
                    2 * r1 >= d1,
                    d1 > 0,
                    d2 > 0,
            ;
        }
        if 2 * r1 > d1 {
            assert(2 * r2 > d2) by (nonlinear_arith)
                requires
                    r1 * d2 <= r2 * d1,
                    2 * r1 > d1,
                    d1 > 0,
                    d2 > 0,
            ;
        }
    }
}

/// Every magnitude lies in a binade: `k` is 0 for a magnitude under
/// `2^24`, and else the one for which it lies from `2^(23+k)` up to
/// `2^(24+k)`. The spacing there is `2^k`.
pub proof fn lemma_binade(t: nat) -> (k: nat)
    ensures
        spacing(t) == pow2(k),
        t < pow2(24 + k),
        k > 0 ==> pow2(23 + k) <= t,
    decreases t,
{
    lemma2_to64();
    if t < 0x100_0000 {
        0
    } else {
        let k = lemma_binade(t / 2);
        lemma_pow2_unfold(k + 1);
        lemma_pow2_unfold(25 + k);
        lemma_pow2_unfold(24 + k);
        k + 1
    }
}

/// What rounding does within a binade: the result is a whole number of
/// spacings and stays within the binade's bounds.
pub proof fn lemma_round_in_binade(n: nat, d: nat, k: nat)
    requires
        d > 0,
        n / d < pow2(24 + k),
        k > 0 ==> pow2(23 + k) <= n / d,
    ensures
        round_magnitude(n, d) == pow2(k) * nearest_even(n, d * pow2(k)),
        round_magnitude(n, d) <= pow2(24 + k),
        k > 0 ==> pow2(23 + k) <= round_magnitude(n, d),
{
    let t = n / d;
    let q = pow2(k);
    lemma2_to64();
    lemma_spacing(t, k);
    lemma_pow2_pos(k);
    lemma_div_denominator(n as int, d as int, q as int);
    let f = n / (d * q);
    let near = nearest_even(n, d * q);
    assert(f == t / q);
    assert(f <= near <= f + 1);
    lemma_pow2_adds(k, 24);
    lemma_pow2_adds(k, 23);
    if k > 0 {
        lemma_binade_shift_down(t, 24 + k, k);
        assert(q * 0x80_0000 <= q * near <= q * 0x100_0000) by (nonlinear_arith)
            requires
                0x80_0000 <= near <= 0x100_0000,
                q > 0,
        ;
    } else {
        assert(t / 1 == t);
        assert(q * near <= q * 0x100_0000) by (nonlinear_arith)
            requires
                near <= 0x100_0000,
                q > 0,
        ;
    }
}

/// Rounding keeps the order of magnitudes: of two fractions the lesser
/// rounds to no more than the greater does.
pub proof fn lemma_round_monotone(n1: nat, d1: nat, n2: nat, d2: nat)
    requires
        d1 > 0,
        d2 > 0,
        n1 * d2 <= n2 * d1,
    ensures
        round_magnitude(n1, d1) <= round_magnitude(n2, d2),
{
    let t1 = n1 / d1;
    let t2 = n2 / d2;
    lemma_floor_monotone(n1, d1, n2, d2);
    let k1 = lemma_binade(t1);
    let k2 = lemma_binade(t2);
    lemma_round_in_binade(n1, d1, k1);
    lemma_round_in_binade(n2, d2, k2);
    if k1 < k2 {
        lemma_pow2_increases(24 + k1, 23 + k2);
    } else if k1 > k2 {
        lemma_pow2_increases(24 + k2, 23 + k1);
    } else {
        let q = pow2(k1);
        lemma_pow2_pos(k1);
        assert(n1 * (d2 * q) <= n2 * (d1 * q)) by (nonlinear_arith)
            requires
                n1 * d2 <= n2 * d1,
                q > 0,
        ;
        assert(d1 * q > 0 && d2 * q > 0) by (nonlinear_arith)
            requires
                d1 > 0,
                d2 > 0,
                q > 0,
        ;
        lemma_nearest_even_monotone(n1, d1 * q, n2, d2 * q);
        let a = nearest_even(n1, d1 * q);
        let b = nearest_even(n2, d2 * q);
        assert(q * a <= q * b) by (nonlinear_arith)
            requires
                a <= b,
                q > 0,
        ;
    }
}

/// A magnitude of at most `2^e` ulps rounds to at most `2^e` ulps.
pub proof fn lemma_round_bound(n: nat, d: nat, e: nat)
    requires
        d > 0,
        n <= d * pow2(e),
    ensures
        round_magnitude(n, d) <= pow2(e),
{
    lemma_round_exact(1, e);
    assert(1 * pow2(e) == pow2(e));
    assert(n * 1 <= pow2(e) * d) by (nonlinear_arith)
        requires
            n <= d * pow2(e),
    ;
    lemma_round_monotone(n, d, pow2(e), 1);
}

/// A magnitude of at least `2^e` ulps rounds to at least `2^e` ulps.
pub proof fn lemma_round_floor(n: nat, d: nat, e: nat)
    requires
        d > 0,
        n >= d * pow2(e),
    ensures
        round_magnitude(n, d) >= pow2(e),
{
    lemma_round_exact(1, e);
    assert(1 * pow2(e) == pow2(e));
    assert(pow2(e) * d <= n * 1) by (nonlinear_arith)
        requires
            n >= d * pow2(e),
    ;
    lemma_round_monotone(pow2(e), 1, n, d);
}

} // verus!
