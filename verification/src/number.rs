//! The mathematical model of binary32 arithmetic.
//!
//! Every finite binary32 value is a whole multiple of 2^-149, the smallest
//! positive one. The model therefore measures magnitudes in that unit, an
//! *ulp*, and states each operation as the exact result of integer or
//! rational arithmetic followed by one rounding to the nearest
//! representable value, ties going to the even significand.

use vstd::prelude::*;
use vstd::arithmetic::power2::pow2;

verus! {

/// What a binary32 datum denotes.
pub enum Number {
    /// Not a number.
    Nan,
    /// An infinity.
    Infinite { negative: bool },
    /// A finite value of magnitude `ulps * 2^-149`. Zero carries a sign.
    Finite { negative: bool, ulps: nat },
}

/// The number of ulps in 1.
pub open spec fn unit() -> nat {
    pow2(149)
}

/// The least magnitude, in ulps, that is too large to be finite: 2^128.
pub open spec fn limit() -> nat {
    pow2(277)
}

/// The distance between neighbouring binary32 values around a magnitude whose
/// whole part is `t` ulps: one ulp below 2^24 ulps, doubling with each
/// binade above.
pub open spec fn spacing(t: nat) -> nat
    decreases t,
{
    if t < 0x100_0000 {
        1
    } else {
        2 * spacing(t / 2)
    }
}

/// The integer nearest to `n / d`, the even one of the two where `n / d` lies
/// half way between them.
pub open spec fn nearest_even(n: nat, d: nat) -> nat {
    let q = n / d;
    let r = n % d;
    if 2 * r > d || (2 * r == d && q % 2 == 1) {
        q + 1
    } else {
        q
    }
}

/// The magnitude `n / d` ulps rounded to a multiple of the spacing at that
/// magnitude.
pub open spec fn round_magnitude(n: nat, d: nat) -> nat {
    let q = spacing(n / d);
    q * nearest_even(n, d * q)
}

/// The binary32 value nearest to `n / d` ulps with the given sign; an
/// infinity where that magnitude would reach 2^128.
pub open spec fn rounded(negative: bool, n: nat, d: nat) -> Number {
    let u = round_magnitude(n, d);
    if u >= limit() {
        Number::Infinite { negative }
    } else {
        Number::Finite { negative, ulps: u }
    }
}

impl Number {
    /// The finite value `k`, for a small whole `k`, halved `halvings` times.
    pub open spec fn dyadic(k: nat, halvings: nat) -> Number {
        Number::Finite { negative: false, ulps: k * pow2((149 - halvings) as nat) }
    }

    pub open spec fn is_zero(self) -> bool {
        self matches Number::Finite { ulps, .. } && ulps == 0
    }

    /// Where the value stands on the number line, in ulps, the infinities
    /// standing at the two limits. Not meaningful for `Nan`.
    pub open spec fn position(self) -> int {
        match self {
            Number::Nan => 0,
            Number::Infinite { negative } => if negative { -(limit() as int) } else { limit() as int },
            Number::Finite { negative, ulps } => if negative { -(ulps as int) } else { ulps as int },
        }
    }

    /// The value of `self <= rhs`: false as soon as either is `Nan`.
    pub open spec fn at_most(self, rhs: Number) -> bool {
        !(self is Nan) && !(rhs is Nan) && self.position() <= rhs.position()
    }

    pub open spec fn negated(self) -> Number {
        match self {
            Number::Nan => Number::Nan,
            Number::Infinite { negative } => Number::Infinite { negative: !negative },
            Number::Finite { negative, ulps } => Number::Finite { negative: !negative, ulps },
        }
    }

    /// The unsigned integer `i` as a binary32 value.
    pub open spec fn of_u32(i: u32) -> Number {
        rounded(false, i as nat * unit(), 1)
    }

    /// `self + rhs`.
    pub open spec fn sum(self, rhs: Number) -> Number {
        match (self, rhs) {
            (Number::Nan, _) => Number::Nan,
            (_, Number::Nan) => Number::Nan,
            (Number::Infinite { negative: a }, Number::Infinite { negative: b }) => if a == b {
                self
            } else {
                Number::Nan
            },
            (Number::Infinite { .. }, _) => self,
            (_, Number::Infinite { .. }) => rhs,
            (Number::Finite { negative: a, .. }, Number::Finite { negative: b, .. }) => {
                let s = self.position() + rhs.position();
                if s == 0 {
                    Number::Finite { negative: a && b, ulps: 0 }
                } else if s < 0 {
                    rounded(true, (-s) as nat, 1)
                } else {
                    rounded(false, s as nat, 1)
                }
            },
        }
    }

    /// `self - rhs`.
    pub open spec fn difference(self, rhs: Number) -> Number {
        self.sum(rhs.negated())
    }

    /// `self * rhs`.
    pub open spec fn product(self, rhs: Number) -> Number {
        match (self, rhs) {
            (Number::Nan, _) => Number::Nan,
            (_, Number::Nan) => Number::Nan,
            (Number::Infinite { negative: a }, Number::Infinite { negative: b }) => Number::Infinite {
                negative: a != b,
            },
            (Number::Infinite { negative: a }, Number::Finite { negative: b, ulps }) => if ulps == 0 {
                Number::Nan
            } else {
                Number::Infinite { negative: a != b }
            },
            (Number::Finite { negative: a, ulps }, Number::Infinite { negative: b }) => if ulps == 0 {
                Number::Nan
            } else {
                Number::Infinite { negative: a != b }
            },
            (
                Number::Finite { negative: a, ulps: x },
                Number::Finite { negative: b, ulps: y },
            ) => rounded(a != b, x * y, unit()),
        }
    }

    /// `self / rhs`.
    pub open spec fn quotient(self, rhs: Number) -> Number {
        match (self, rhs) {
            (Number::Nan, _) => Number::Nan,
            (_, Number::Nan) => Number::Nan,
            (Number::Infinite { .. }, Number::Infinite { .. }) => Number::Nan,
            (Number::Infinite { negative: a }, Number::Finite { negative: b, .. }) => Number::Infinite {
                negative: a != b,
            },
            (Number::Finite { negative: a, .. }, Number::Infinite { negative: b }) => Number::Finite {
                negative: a != b,
                ulps: 0,
            },
            (Number::Finite { negative: a, ulps: x }, Number::Finite { negative: b, ulps: y }) => if y
                == 0 {
                if x == 0 {
                    Number::Nan
                } else {
                    Number::Infinite { negative: a != b }
                }
            } else {
                rounded(a != b, x * unit(), y)
            },
        }
    }

    /// The nearest whole number, half way cases going away from zero.
    pub open spec fn round_half_away(self) -> Number {
        match self {
            Number::Finite { negative, ulps } => Number::Finite {
                negative,
                ulps: ((2 * ulps + unit()) / (2 * unit())) * unit(),
            },
            _ => self,
        }
    }

    /// The value as a byte: the whole part of a value between 0 and 255, the
    /// nearer end of that range for any other number, and 0 for `Nan`.
    pub open spec fn to_u8(self) -> u8 {
        match self {
            Number::Nan => 0,
            Number::Infinite { negative } => if negative { 0 } else { 255 },
            Number::Finite { negative, ulps } => if negative {
                0
            } else if ulps / unit() >= 255 {
                255
            } else {
                (ulps / unit()) as u8
            },
        }
    }
}

} // verus!
