//! The mathematical model of IEEE 754 binary32 numbers.
//!
//! Every finite binary32 value is a whole multiple of 2^-149. The model holds
//! a finite value as its sign and its magnitude counted in that unit, so exact
//! sums, products and remainders are plain integer arithmetic and a quotient
//! is a ratio of two naturals. Rounding is stated once, on such a ratio.
use vstd::arithmetic::power2::pow2;
use vstd::prelude::*;

verus! {

/// What a binary32 bit pattern denotes.
pub enum Val {
    /// Not a number. The model has a single one; payloads are not observed.
    Nan,
    /// Positive or negative infinity.
    Inf { neg: bool },
    /// A finite value of magnitude `mag * 2^-149`. Zero has a sign as well.
    Fin { neg: bool, mag: nat },
}

/// The number one, counted in units of 2^-149.
pub open spec fn one() -> nat {
    pow2(149)
}

/// The least magnitude that no finite binary32 value reaches: 2^128, counted
/// in units of 2^-149.
pub open spec fn overflow_bound() -> nat {
    pow2(277)
}

/// How often `q` must be halved to fall below 2^24: the exponent, relative to
/// the unit, of the binary32 interval that holds `q`.
pub open spec fn binade(q: nat) -> nat
    decreases q,
{
    if q < 0x100_0000 {
        0
    } else {
        1 + binade(q / 2)
    }
}

/// The ratio `num / den`, counted in units of 2^-149, rounded to the nearest
/// magnitude that has at most 24 significant bits; of two nearest ones, the
/// one with an even significand. The exponent range is not bounded above here:
/// see [`settle`].
#[verifier::opaque]
pub open spec fn round_ratio(num: nat, den: nat) -> nat
    recommends
        den > 0,
{
    let e = binade(num / den);
    let step = den * pow2(e);
    let q = num / step;
    let r = num % step;
    if 2 * r > step || (2 * r == step && q % 2 == 1) {
        (q + 1) * pow2(e)
    } else {
        q * pow2(e)
    }
}

/// A rounded magnitude as a value: magnitudes from 2^128 on become infinity.
pub open spec fn settle(neg: bool, mag: nat) -> Val {
    if mag >= overflow_bound() {
        Val::Inf { neg }
    } else {
        Val::Fin { neg, mag }
    }
}

/// The value of the integer `n`, rounded to binary32.
#[verifier::opaque]
pub open spec fn val_of_int(n: int) -> Val {
    if n < 0 {
        settle(true, round_ratio(((-n) * one()) as nat, 1))
    } else {
        settle(false, round_ratio((n * one()) as nat, 1))
    }
}

/// The quotient of the integers `num` and `den`, each rounded to binary32 and
/// the quotient rounded again: for operands below 2^24, the ratio rounded once.
pub open spec fn val_of_ratio(num: int, den: int) -> Val {
    val_of_int(num).div(val_of_int(den))
}

impl Val {
    /// Positive zero.
    pub open spec fn zero() -> Val {
        Val::Fin { neg: false, mag: 0 }
    }

    pub open spec fn is_nan(self) -> bool {
        self is Nan
    }

    /// The sign bit; false for not-a-number.
    pub open spec fn is_neg(self) -> bool {
        match self {
            Val::Nan => false,
            Val::Inf { neg } => neg,
            Val::Fin { neg, .. } => neg,
        }
    }

    /// A finite value as a signed count of units; 0 for anything else.
    pub open spec fn signed(self) -> int {
        match self {
            Val::Fin { neg, mag } => if neg {
                -(mag as int)
            } else {
                mag as int
            },
            _ => 0,
        }
    }

    /// The magnitude of a finite value; 0 for anything else.
    pub open spec fn mag(self) -> nat {
        match self {
            Val::Fin { mag, .. } => mag,
            _ => 0,
        }
    }

    /// Both zeros.
    pub open spec fn is_zero(self) -> bool {
        self is Fin && self.mag() == 0
    }

    /// A number whose sign bit is clear: positive zero, a positive number, or
    /// positive infinity.
    pub open spec fn is_plus(self) -> bool {
        !(self is Nan) && !self.is_neg()
    }

    /// A whole number below 2^24 in magnitude, zero being positive: what a
    /// coordinate in whole pixels is.
    pub open spec fn is_pixel(self) -> bool {
        &&& self is Fin
        &&& self.mag() % one() == 0
        &&& self.mag() / one() < 0x100_0000
        &&& self.mag() == 0 ==> !self.is_neg()
    }

    /// `self < other`. False as soon as either is not a number.
    #[verifier::opaque]
    pub open spec fn lt(self, other: Val) -> bool {
        match (self, other) {
            (Val::Nan, _) => false,
            (_, Val::Nan) => false,
            (Val::Inf { neg: a }, Val::Inf { neg: b }) => a && !b,
            (Val::Inf { neg }, Val::Fin { .. }) => neg,
            (Val::Fin { .. }, Val::Inf { neg }) => !neg,
            (Val::Fin { .. }, Val::Fin { .. }) => self.signed() < other.signed(),
        }
    }

    /// `self == other` as numbers: the two zeros are equal, and not-a-number
    /// equals nothing.
    #[verifier::opaque]
    pub open spec fn same(self, other: Val) -> bool {
        match (self, other) {
            (Val::Nan, _) => false,
            (_, Val::Nan) => false,
            (Val::Inf { neg: a }, Val::Inf { neg: b }) => a == b,
            (Val::Fin { .. }, Val::Fin { .. }) => self.signed() == other.signed(),
            _ => false,
        }
    }

    pub open spec fn gt(self, other: Val) -> bool {
        other.lt(self)
    }

    pub open spec fn le(self, other: Val) -> bool {
        self.lt(other) || self.same(other)
    }

    pub open spec fn ge(self, other: Val) -> bool {
        other.le(self)
    }

    /// The value with its sign cleared.
    pub open spec fn abs(self) -> Val {
        match self {
            Val::Nan => Val::Nan,
            Val::Inf { .. } => Val::Inf { neg: false },
            Val::Fin { mag, .. } => Val::Fin { neg: false, mag },
        }
    }

    /// The value with its sign flipped.
    pub open spec fn neg(self) -> Val {
        match self {
            Val::Nan => Val::Nan,
            Val::Inf { neg } => Val::Inf { neg: !neg },
            Val::Fin { neg, mag } => Val::Fin { neg: !neg, mag },
        }
    }

    /// The greater of the two; the other one where one is not a number, and
    /// `self` where they compare equal.
    pub open spec fn max(self, other: Val) -> Val {
        if self is Nan {
            other
        } else if self.lt(other) {
            other
        } else {
            self
        }
    }

    /// The lesser of the two; the other one where one is not a number, and
    /// `self` where they compare equal.
    pub open spec fn min(self, other: Val) -> Val {
        if self is Nan {
            other
        } else if other.lt(self) {
            other
        } else {
            self
        }
    }

    /// The exact sum, rounded. An exact zero sum is negative only if both
    /// terms are.
    #[verifier::opaque]
    pub open spec fn add(self, other: Val) -> Val {
        match (self, other) {
            (Val::Nan, _) => Val::Nan,
            (_, Val::Nan) => Val::Nan,
            (Val::Inf { neg: a }, Val::Inf { neg: b }) => if a == b {
                self
            } else {
                Val::Nan
            },
            (Val::Inf { .. }, Val::Fin { .. }) => self,
            (Val::Fin { .. }, Val::Inf { .. }) => other,
            (Val::Fin { neg: a, .. }, Val::Fin { neg: b, .. }) => {
                let sum = self.signed() + other.signed();
                if sum == 0 {
                    Val::Fin { neg: a && b, mag: 0 }
                } else if sum < 0 {
                    settle(true, round_ratio((-sum) as nat, 1))
                } else {
                    settle(false, round_ratio(sum as nat, 1))
                }
            },
        }
    }

    /// The exact difference, rounded.
    pub open spec fn sub(self, other: Val) -> Val {
        self.add(other.neg())
    }

    /// The exact product, rounded. Zero times infinity is not a number.
    #[verifier::opaque]
    pub open spec fn mul(self, other: Val) -> Val {
        let neg = self.is_neg() != other.is_neg();
        match (self, other) {
            (Val::Nan, _) => Val::Nan,
            (_, Val::Nan) => Val::Nan,
            (Val::Inf { .. }, Val::Inf { .. }) => Val::Inf { neg },
            (Val::Inf { .. }, Val::Fin { mag, .. }) => if mag == 0 {
                Val::Nan
            } else {
                Val::Inf { neg }
            },
            (Val::Fin { mag, .. }, Val::Inf { .. }) => if mag == 0 {
                Val::Nan
            } else {
                Val::Inf { neg }
            },
            (Val::Fin { mag: a, .. }, Val::Fin { mag: b, .. }) => settle(
                neg,
                round_ratio(a * b, one()),
            ),
        }
    }

    /// The exact quotient, rounded. Zero by zero and infinity by infinity are
    /// not numbers; anything else by zero is infinite.
    #[verifier::opaque]
    pub open spec fn div(self, other: Val) -> Val {
        let neg = self.is_neg() != other.is_neg();
        match (self, other) {
            (Val::Nan, _) => Val::Nan,
            (_, Val::Nan) => Val::Nan,
            (Val::Inf { .. }, Val::Inf { .. }) => Val::Nan,
            (Val::Inf { .. }, Val::Fin { .. }) => Val::Inf { neg },
            (Val::Fin { .. }, Val::Inf { .. }) => Val::Fin { neg, mag: 0 },
            (Val::Fin { mag: a, .. }, Val::Fin { mag: b, .. }) => if b == 0 {
                if a == 0 {
                    Val::Nan
                } else {
                    Val::Inf { neg }
                }
            } else {
                settle(neg, round_ratio(a * one(), b))
            },
        }
    }

    /// The remainder of the division that truncates its quotient toward zero.
    /// It is exact and has the sign of `self`.
    #[verifier::opaque]
    pub open spec fn rem(self, other: Val) -> Val {
        match (self, other) {
            (Val::Nan, _) => Val::Nan,
            (_, Val::Nan) => Val::Nan,
            (Val::Inf { .. }, _) => Val::Nan,
            (Val::Fin { .. }, Val::Inf { .. }) => self,
            (Val::Fin { neg, mag: a }, Val::Fin { mag: b, .. }) => if b == 0 {
                Val::Nan
            } else {
                Val::Fin { neg, mag: a % b }
            },
        }
    }

    /// The nearest whole number; a value half-way between two goes away from
    /// zero. The sign is kept, also on a zero result.
    #[verifier::opaque]
    pub open spec fn round(self) -> Val {
        match self {
            Val::Fin { neg, mag } => Val::Fin {
                neg,
                mag: ((2 * mag + one()) / (2 * one())) * one(),
            },
            _ => self,
        }
    }

    /// The least whole number that is not below the value. The sign is kept,
    /// also on a zero result.
    #[verifier::opaque]
    pub open spec fn ceil(self) -> Val {
        match self {
            Val::Fin { neg, mag } => if neg {
                Val::Fin { neg, mag: (mag / one()) * one() }
            } else {
                Val::Fin {
                    neg,
                    mag: if mag % one() == 0 {
                        mag
                    } else {
                        (mag / one() + 1) * one()
                    },
                }
            },
            _ => self,
        }
    }

    /// The value cut off toward zero and brought into the range of `i32`:
    /// what lies outside goes to the nearer bound, not-a-number to 0.
    #[verifier::opaque]
    pub open spec fn to_i32(self) -> int {
        match self {
            Val::Nan => 0,
            Val::Inf { neg } => if neg {
                -0x8000_0000
            } else {
                0x7fff_ffff
            },
            Val::Fin { neg, mag } => {
                let whole = (mag / one()) as int;
                if neg {
                    if whole >= 0x8000_0000 {
                        -0x8000_0000
                    } else {
                        -whole
                    }
                } else {
                    if whole >= 0x7fff_ffff {
                        0x7fff_ffff
                    } else {
                        whole
                    }
                }
            },
        }
    }
}

} // verus!
