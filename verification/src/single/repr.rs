//! The bit pattern, what it denotes, and the one place where a result is
//! rounded and encoded.
use crate::single::model::{binade, settle, Val};
use crate::single::rounding::{jam, jam_shift, lemma_binade_range, lemma_pow2_double, lemma_pow2_monotone, lemma_pow2_sum};
use vstd::arithmetic::div_mod::{lemma_basic_div, lemma_div_is_ordered_by_denominator, lemma_small_mod};
use vstd::arithmetic::power2::{lemma2_to64, lemma2_to64_rest, lemma_pow2_pos, lemma_pow2_strictly_increases, pow2};
use vstd::bits::lemma_u64_shl_is_mul;
use vstd::prelude::*;

verus! {

/// A single-precision number, held as its IEEE 754 binary32 bit pattern: one
/// sign bit, eight exponent bits, twenty-three fraction bits.
#[derive(Copy, Clone, Debug)]
pub struct Single {
    pub bits: u32,
}

impl View for Single {
    type V = Val;

    open spec fn view(&self) -> Val {
        let neg = self.bits >= 0x8000_0000u32;
        let field = (self.bits as nat / 0x80_0000) % 256;
        let frac = self.bits as nat % 0x80_0000;
        if field == 255 {
            if frac == 0 {
                Val::Inf { neg }
            } else {
                Val::Nan
            }
        } else if field == 0 {
            Val::Fin { neg, mag: frac }
        } else {
            Val::Fin { neg, mag: (0x80_0000 + frac) * pow2((field - 1) as nat) }
        }
    }
}

/// The three kinds of bit pattern.
pub enum Class {
    Nan,
    Inf,
    Fin,
}

/// A bit pattern taken apart: for a finite one, the significand with its
/// leading bit and the exponent relative to 2^-149.
pub struct Parts {
    pub class: Class,
    pub neg: bool,
    pub man: u64,
    pub exp: u32,
}

impl Parts {
    /// The parts are those of `v`, with the significand normal unless the
    /// exponent is 0.
    pub open spec fn denotes(self, v: Val) -> bool {
        match self.class {
            Class::Nan => v is Nan,
            Class::Inf => v == (Val::Inf { neg: self.neg }),
            Class::Fin => {
                &&& v == (Val::Fin { neg: self.neg, mag: self.man as nat * pow2(self.exp as nat) })
                &&& self.man < 0x100_0000
                &&& self.exp <= 253
                &&& self.exp > 0 ==> self.man >= 0x80_0000
            },
        }
    }
}

/// Two to the power of `k`.
pub fn pow2_u64(k: u32) -> (r: u64)
    requires
        k < 64,
    ensures
        r == pow2(k as nat),
{
    proof {
        lemma2_to64();
        lemma_pow2_strictly_increases(k as nat, 64);
        lemma_u64_shl_is_mul(1, k as u64);
    }
    1u64 << (k as u64)
}

/// The binade of `n`, by halving.
pub fn binade_of(n: u64) -> (b: u32)
    ensures
        b == binade(n as nat),
        b <= 40,
{
    let mut m: u64 = n;
    let mut b: u32 = 0;
    proof {
        lemma2_to64();
    }
    while m >= 0x100_0000
        invariant
            binade(n as nat) == b + binade(m as nat),
            b <= 40,
            m < pow2((64 - b) as nat),
        decreases m,
    {
        proof {
            lemma2_to64();
            if b >= 40 {
                lemma_pow2_monotone((64 - b) as nat, 24);
            }
            lemma_pow2_double((63 - b) as nat);
        }
        m = m / 2;
        b = b + 1;
    }
    b
}

impl Single {
    /// The bit pattern is the one that the operations give for what it
    /// denotes: of the many patterns that are not a number, the quiet one
    /// with a clear sign and no payload. Every other pattern is the only one
    /// of its number.
    pub open spec fn canonical(self) -> bool {
        self@ is Nan ==> self.bits == 0x7fc0_0000
    }

    /// The number with the given bit pattern.
    pub fn from_bits(bits: u32) -> (r: Single)
        ensures
            r.bits == bits,
    {
        Single { bits }
    }

    /// The bit pattern of the number.
    pub fn to_bits(self) -> (r: u32)
        ensures
            r == self.bits,
    {
        self.bits
    }

    /// Takes the bit pattern apart.
    pub fn unpack(self) -> (p: Parts)
        ensures
            p.denotes(self@),
    {
        let neg = self.bits >= 0x8000_0000;
        let field: u32 = (self.bits / 0x80_0000) % 256;
        let frac: u32 = self.bits % 0x80_0000;
        proof {
            lemma2_to64();
        }
        if field == 255 {
            if frac == 0 {
                Parts { class: Class::Inf, neg, man: 0, exp: 0 }
            } else {
                Parts { class: Class::Nan, neg, man: 0, exp: 0 }
            }
        } else if field == 0 {
            assert(frac as nat * pow2(0) == frac as nat) by (nonlinear_arith)
                requires
                    pow2(0) == 1,
            ;
            Parts { class: Class::Fin, neg, man: frac as u64, exp: 0 }
        } else {
            Parts { class: Class::Fin, neg, man: 0x80_0000 + frac as u64, exp: field - 1 }
        }
    }

    /// Encodes the magnitude `m * 2^t`, counted in units of 2^-149, whose
    /// significand `m` has at most 24 bits (2^24 itself included); what is too
    /// large for a finite number becomes infinity.
    pub(crate) fn pack(neg: bool, m: u64, t: u32) -> (r: Single)
        requires
            m <= 0x100_0000,
        ensures
            r@ == settle(neg, m as nat * pow2(t as nat)),
            r.canonical(),
    {
        let sign: u32 = if neg {
            0x8000_0000
        } else {
            0
        };
        let ghost mag = m as nat * pow2(t as nat);
        proof {
            lemma2_to64();
            lemma_pow2_pos(277);
        }
        if m == 0 {
            assert(mag == 0) by (nonlinear_arith)
                requires
                    mag == m as nat * pow2(t as nat),
                    m == 0,
            ;
            return Single { bits: sign };
        }
        let mut m: u64 = m;
        let mut t: u32 = t;
        while m < 0x80_0000 && t > 0
            invariant
                0 < m <= 0x100_0000,
                mag == m as nat * pow2(t as nat),
            decreases t,
        {
            proof {
                lemma_pow2_double((t - 1) as nat);
                assert(m as nat * pow2(t as nat) == (2 * m) as nat * pow2((t - 1) as nat))
                    by (nonlinear_arith)
                    requires
                        pow2(t as nat) == 2 * pow2((t - 1) as nat),
                ;
            }
            m = m * 2;
            t = t - 1;
        }
        if m >= 0x80_0000 && t >= 254 {
            proof {
                lemma_pow2_monotone(254, t as nat);
                lemma_pow2_sum(23, 254);
                assert(mag >= pow2(277)) by (nonlinear_arith)
                    requires
                        mag == m as nat * pow2(t as nat),
                        m >= pow2(23),
                        pow2(t as nat) >= pow2(254),
                        pow2(277) == pow2(23) * pow2(254),
                ;
            }
            return Single { bits: sign + 0x7f80_0000 };
        }
        if m == 0x100_0000 {
            proof {
                lemma_pow2_double(t as nat);
                assert(m as nat * pow2(t as nat) == 0x80_0000 * pow2((t + 1) as nat))
                    by (nonlinear_arith)
                    requires
                        pow2((t + 1) as nat) == 2 * pow2(t as nat),
                        m == 0x100_0000,
                ;
            }
            m = 0x80_0000;
            t = t + 1;
        }
        if m < 0x80_0000 {
            assert(m as nat * pow2(0) == m as nat) by (nonlinear_arith)
                requires
                    pow2(0) == 1,
            ;
            proof {
                lemma_pow2_strictly_increases(24, 277);
            }
            Single { bits: sign + m as u32 }
        } else if t >= 254 {
            proof {
                lemma_pow2_sum(23, 254);
            }
            Single { bits: sign + 0x7f80_0000 }
        } else {
            proof {
                lemma_pow2_monotone(t as nat, 253);
                lemma_pow2_sum(24, 253);
                assert(mag < pow2(277)) by (nonlinear_arith)
                    requires
                        mag == m as nat * pow2(t as nat),
                        m < pow2(24),
                        1 <= pow2(t as nat) <= pow2(253),
                        pow2(277) == pow2(24) * pow2(253),
                ;
            }
            let frac: u32 = (m - 0x80_0000) as u32;
            let r = Single { bits: sign + (t + 1) * 0x80_0000 + frac };
            assert((r.bits as nat / 0x80_0000) % 256 == t + 1);
            assert(r.bits as nat % 0x80_0000 == frac);
            r
        }
    }

    /// Rounds and encodes a value that lies in `[n, n + 1)` units of `2^x`,
    /// themselves counted in units of 2^-149: at `n` itself unless `sticky`.
    pub fn round_pack(neg: bool, n: u64, x: i32, sticky: bool) -> (r: Single)
        ensures
            r@ == settle(neg, jam(n as nat, x as int, sticky)),
            r.canonical(),
    {
        let b: i64 = binade_of(n) as i64;
        let down: i64 = -(x as i64);
        let k: i64 = if b >= down {
            b
        } else {
            down
        };
        let t: i64 = x as i64 + k;
        assert(k == jam_shift(n as nat, x as int));
        proof {
            lemma2_to64();
            lemma2_to64_rest();
            lemma_pow2_pos(k as nat);
            lemma_pow2_pos(t as nat);
        }
        let m: u64 = if k >= 64 {
            proof {
                lemma_pow2_monotone(64, k as nat);
                lemma_basic_div(n as int, pow2(k as nat) as int);
                lemma_small_mod(n as nat, pow2(k as nat));
                if k >= 65 {
                    lemma_pow2_monotone(65, k as nat);
                    lemma_pow2_double(64);
                }
            }
            if k == 64 && (n > 0x8000_0000_0000_0000 || (n == 0x8000_0000_0000_0000 && sticky)) {
                1
            } else {
                0
            }
        } else {
            let pk = pow2_u64(k as u32);
            let q = n / pk;
            let r = n % pk;
            proof {
                lemma_binade_range(n as nat);
                lemma_pow2_monotone(binade(n as nat), k as nat);
                lemma_div_is_ordered_by_denominator(
                    n as int,
                    pow2(binade(n as nat)) as int,
                    pk as int,
                );
            }
            let up = r > pk - r || (r == pk - r && (sticky || q % 2 == 1));
            if up {
                q + 1
            } else {
                q
            }
        };
        proof {
            assert(0 * pow2(t as nat) == 0) by (nonlinear_arith);
            assert(1 * pow2(t as nat) == pow2(t as nat)) by (nonlinear_arith);
        }
        Single::pack(neg, m, t as u32)
    }
}

/// Far above the exponent range every positive count rounds to infinity.
pub proof fn lemma_jam_overflows(n: nat, x: int, sticky: bool)
    requires
        n >= 1,
        x >= 300,
    ensures
        jam(n, x, sticky) >= pow2(277),
{
    let k = jam_shift(n, x);
    let t = (x + k) as nat;
    let q = n / pow2(k);
    lemma_binade_range(n);
    lemma2_to64();
    assert(k == binade(n));
    if k == 0 {
        assert(pow2(k) == 1);
        assert(n / 1 == n);
    }
    assert(q >= 1);
    lemma_pow2_monotone(277, t);
    assert(q * pow2(t) >= pow2(277) && (q + 1) * pow2(t) >= pow2(277)) by (nonlinear_arith)
        requires
            q >= 1,
            pow2(t) >= pow2(277),
    ;
}

/// Far below the exponent range every count of a machine word rounds to
/// zero.
pub proof fn lemma_jam_vanishes(n: nat, x: int, sticky: bool)
    requires
        n < 0x1_0000_0000_0000_0000,
        x <= -300,
    ensures
        jam(n, x, sticky) == 0,
{
    let k = jam_shift(n, x);
    lemma_binade_range(n);
    lemma2_to64();
    lemma2_to64_rest();
    lemma_pow2_double(64);
    if binade(n) >= 300 {
        lemma_pow2_monotone(65, binade(n));
        lemma_basic_div(n as int, pow2(binade(n)) as int);
    }
    assert(k == -x);
    lemma_pow2_monotone(65, k);
    lemma_pow2_double(64);
    lemma_basic_div(n as int, pow2(k) as int);
    lemma_small_mod(n, pow2(k));
    assert(0 * pow2((x + k) as nat) == 0);
}

impl Single {
    /// As [`Single::round_pack`], for a unit `2^x` of any size.
    pub fn round_pack_wide(neg: bool, n: u64, x: i128, sticky: bool) -> (r: Single)
        ensures
            r@ == settle(neg, jam(n as nat, x as int, sticky)),
            r.canonical(),
    {
        if x <= -300 {
            proof {
                lemma_jam_vanishes(n as nat, x as int, sticky);
                lemma_pow2_pos(277);
            }
            Single { bits: if neg {
                0x8000_0000
            } else {
                0
            } }
        } else if x >= 300 {
            if n == 0 {
                proof {
                    lemma2_to64();
                    assert(jam_shift(0, x as int) == 0);
                    assert(0nat / 1 == 0 && 0nat % 1 == 0);
                    assert(0 * pow2(x as nat) == 0);
                    lemma_pow2_pos(277);
                }
                Single { bits: if neg {
                    0x8000_0000
                } else {
                    0
                } }
            } else {
                proof {
                    lemma_jam_overflows(n as nat, x as int, sticky);
                }
                Single { bits: if neg {
                    0xff80_0000
                } else {
                    0x7f80_0000
                } }
            }
        } else {
            Single::round_pack(neg, n, x as i32, sticky)
        }
    }
}

} // verus!
