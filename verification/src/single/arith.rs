//! Sum, difference, product, quotient and remainder, each rounded once.
use crate::single::model::{one, round_ratio, settle, val_of_int, val_of_ratio, Val};
use crate::single::repr::{pow2_u64, Class, Parts, Single};
use crate::single::rounding::{jam, lemma_jam_scaled, lemma_mag_order, lemma_pow2_double, lemma_pow2_monotone, lemma_pow2_sum, lemma_round_ratio_exact, lemma_round_ratio_same_ratio};
use vstd::arithmetic::div_mod::{lemma_basic_div, lemma_fundamental_div_mod, lemma_small_mod, lemma_truncate_middle};
use vstd::arithmetic::power2::{lemma2_to64, lemma2_to64_rest, lemma_pow2_pos, pow2};
use vstd::prelude::*;

verus! {

/// The significand `man`, doubled until it is normal, and how often it was
/// doubled.
fn normalize(man: u64) -> (r: (u64, u32))
    requires
        0 < man < 0x100_0000,
    ensures
        0x80_0000 <= r.0 < 0x100_0000,
        r.1 <= 23,
        r.0 == man * pow2(r.1 as nat),
{
    let mut m: u64 = man;
    let mut j: u32 = 0;
    proof {
        lemma2_to64();
    }
    while m < 0x80_0000
        invariant
            0 < m < 0x100_0000,
            m == man * pow2(j as nat),
            j <= 23,
            m >= pow2(j as nat),
        decreases 0x100_0000 - m,
    {
        proof {
            lemma2_to64();
            lemma_pow2_double(j as nat);
            if j >= 23 {
                lemma_pow2_monotone(23, j as nat);
            }
            assert(2 * (man * pow2(j as nat)) == man * pow2((j + 1) as nat)) by (nonlinear_arith)
                requires
                    pow2((j + 1) as nat) == 2 * pow2(j as nat),
            ;
        }
        m = m * 2;
        j = j + 1;
    }
    (m, j)
}

impl Single {
    /// The one not-a-number that the operations produce.
    pub fn nan() -> (r: Single)
        ensures
            r@ is Nan,
            r.canonical(),
    {
        Single { bits: 0x7fc0_0000 }
    }

    /// Infinity of the given sign.
    pub fn infinity(neg: bool) -> (r: Single)
        ensures
            r@ == (Val::Inf { neg }),
            r.canonical(),
    {
        if neg {
            Single { bits: 0xff80_0000 }
        } else {
            Single { bits: 0x7f80_0000 }
        }
    }

    /// Zero of the given sign.
    pub fn zero(neg: bool) -> (r: Single)
        ensures
            r@ == (Val::Fin { neg, mag: 0 }),
            r.canonical(),
    {
        if neg {
            Single { bits: 0x8000_0000 }
        } else {
            Single { bits: 0 }
        }
    }

    /// The product, rounded to nearest.
    pub fn mul(self, other: Single) -> (r: Single)
        ensures
            r@ == self@.mul(other@),
            r.canonical(),
    {
        reveal(Val::mul);
        let a = self.unpack();
        let b = other.unpack();
        let neg = a.neg != b.neg;
        match a.class {
            Class::Nan => Single::nan(),
            Class::Inf => match b.class {
                Class::Nan => Single::nan(),
                Class::Inf => Single::infinity(neg),
                Class::Fin => {
                    proof {
                        lemma_zero_mag(b.man as nat, b.exp as nat);
                    }
                    if b.man == 0 {
                        Single::nan()
                    } else {
                        Single::infinity(neg)
                    }
                },
            },
            Class::Fin => match b.class {
                Class::Nan => Single::nan(),
                Class::Inf => {
                    proof {
                        lemma_zero_mag(a.man as nat, a.exp as nat);
                    }
                    if a.man == 0 {
                        Single::nan()
                    } else {
                        Single::infinity(neg)
                    }
                },
                Class::Fin => {
                    assert(a.man * b.man < 0x1_0000_0000_0000) by (nonlinear_arith)
                        requires
                            a.man < 0x100_0000,
                            b.man < 0x100_0000,
                    ;
                    let n: u64 = a.man * b.man;
                    let x: i32 = (a.exp + b.exp) as i32 - 149;
                    proof {
                        let ea = a.exp as nat;
                        let eb = b.exp as nat;
                        lemma_pow2_sum(ea, eb);
                        lemma2_to64();
                        assert((a.man as nat * pow2(ea)) * (b.man as nat * pow2(eb)) == n as nat
                            * pow2(ea + eb)) by (nonlinear_arith)
                            requires
                                n == a.man * b.man,
                                pow2(ea + eb) == pow2(ea) * pow2(eb),
                        ;
                        assert(1 * pow2(149) == one());
                        assert(n as nat * 1 == n as nat);
                        lemma_jam_scaled(n as nat, 1, ea + eb, 149, n as nat, false);
                    }
                    Single::round_pack(neg, n, x, false)
                },
            },
        }
    }

    /// The quotient, rounded to nearest.
    pub fn div(self, other: Single) -> (r: Single)
        ensures
            r@ == self@.div(other@),
            r.canonical(),
    {
        reveal(Val::div);
        let a = self.unpack();
        let b = other.unpack();
        let neg = a.neg != b.neg;
        match a.class {
            Class::Nan => Single::nan(),
            Class::Inf => match b.class {
                Class::Nan => Single::nan(),
                Class::Inf => Single::nan(),
                Class::Fin => Single::infinity(neg),
            },
            Class::Fin => match b.class {
                Class::Nan => Single::nan(),
                Class::Inf => Single::zero(neg),
                Class::Fin => {
                    proof {
                        lemma_zero_mag(a.man as nat, a.exp as nat);
                        lemma_zero_mag(b.man as nat, b.exp as nat);
                    }
                    if b.man == 0 {
                        if a.man == 0 {
                            Single::nan()
                        } else {
                            Single::infinity(neg)
                        }
                    } else if a.man == 0 {
                        proof {
                            let den = b.man as nat * pow2(b.exp as nat);
                            lemma_round_ratio_exact(0, 0, den);
                            assert(0 * pow2(0) * den == 0) by (nonlinear_arith);
                            assert(0 * pow2(0) == 0) by (nonlinear_arith);
                            assert(0 * one() == 0) by (nonlinear_arith);
                            lemma_pow2_pos(277);
                        }
                        Single::zero(neg)
                    } else {
                        Single::div_finite(neg, &a, &b)
                    }
                },
            },
        }
    }

    /// The quotient of two finite magnitudes that are not zero.
    fn div_finite(neg: bool, a: &Parts, b: &Parts) -> (r: Single)
        requires
            a.class is Fin,
            b.class is Fin,
            0 < a.man < 0x100_0000,
            0 < b.man < 0x100_0000,
            a.exp <= 253,
            b.exp <= 253,
        ensures
            r@ == settle(
                neg,
                round_ratio(
                    a.man as nat * pow2(a.exp as nat) * one(),
                    b.man as nat * pow2(b.exp as nat),
                ),
            ),
            r.canonical(),
    {
        let (ma, ja) = normalize(a.man);
        let (mb, jb) = normalize(b.man);
        let top: u64 = ma * 0x100_0000_0000;
        let n: u64 = top / mb;
        let rest: u64 = top % mb;
        let sticky = rest != 0;
        let x: i32 = (a.exp as i32 - ja as i32) - (b.exp as i32 - jb as i32) + 109;
        proof {
            lemma2_to64();
            lemma2_to64_rest();
            let ea = a.exp as nat;
            let eb = b.exp as nat;
            let en = ea + 149 + jb as nat;
            let ed = eb + ja as nat + 40;
            lemma_fundamental_div_mod(top as int, mb as int);
            assert(n * mb <= top < (n + 1) * mb) by (nonlinear_arith)
                requires
                    top == mb * n + rest,
                    0 <= rest < mb,
            ;
            assert((n * mb != top) == (rest != 0)) by (nonlinear_arith)
                requires
                    top == mb * n + rest,
            ;
            assert(0x80_0000_0000 <= n < 0x200_0000_0000) by (nonlinear_arith)
                requires
                    top == mb * n + rest,
                    0 <= rest < mb,
                    0x80_0000 <= mb < 0x100_0000,
                    0x8000_0000_0000_0000 <= top < 0x1_0000_0000_0000_0000,
            ;
            lemma_jam_scaled(top as nat, mb as nat, en, ed, n as nat, sticky);
            let pa = pow2(ea);
            let pb = pow2(eb);
            let pja = pow2(ja as nat);
            let pjb = pow2(jb as nat);
            lemma_pow2_sum(ea, 149);
            lemma_pow2_sum(ea + 149, jb as nat);
            lemma_pow2_sum(eb, ja as nat);
            lemma_pow2_sum(eb + ja as nat, 40);
            let u = one();
            let pn = pow2(en);
            let pd = pow2(ed);
            let am = a.man as nat;
            let bm = b.man as nat;
            assert(pn == pa * u * pjb);
            assert(pd == pb * pja * 0x100_0000_0000);
            let num = am * pa * u;
            let den = bm * pb;
            let scale = pjb * pja * 0x100_0000_0000;
            assert(mb as nat * pd == den * scale) by (nonlinear_arith)
                requires
                    mb == bm * pjb,
                    pd == pb * pja * 0x100_0000_0000,
                    den == bm * pb,
                    scale == pjb * pja * 0x100_0000_0000,
            ;
            assert(top as nat * pn == num * scale) by (nonlinear_arith)
                requires
                    top == am * pja * 0x100_0000_0000,
                    pn == pa * u * pjb,
                    num == am * pa * u,
                    scale == pjb * pja * 0x100_0000_0000,
            ;
            assert(num * (den * scale) == (num * scale) * den) by (nonlinear_arith);
            lemma_pow2_pos(eb);
            lemma_pow2_pos(ed);
            assert(bm * pb > 0) by (nonlinear_arith)
                requires
                    bm > 0,
                    pb > 0,
            ;
            assert(mb as nat * pd > 0) by (nonlinear_arith)
                requires
                    mb > 0,
                    pd > 0,
            ;
            lemma_round_ratio_same_ratio(am * pa * u, bm * pb, top as nat * pn, mb as nat * pd);
        }
        Single::round_pack(neg, n, x, sticky)
    }

    /// The value with its sign flipped.
    pub fn neg(self) -> (r: Single)
        ensures
            r@ == self@.neg(),
            r.canonical(),
    {
        if self.is_nan() {
            Single::nan()
        } else if self.bits >= 0x8000_0000 {
            Single { bits: self.bits - 0x8000_0000 }
        } else {
            Single { bits: self.bits + 0x8000_0000 }
        }
    }

    /// The value with its sign cleared.
    pub fn abs(self) -> (r: Single)
        ensures
            r@ == self@.abs(),
            r.canonical(),
    {
        if self.is_nan() {
            Single::nan()
        } else if self.bits >= 0x8000_0000 {
            Single { bits: self.bits - 0x8000_0000 }
        } else {
            self
        }
    }

    /// The remainder of the division that truncates toward zero. It is exact.
    pub fn rem(self, other: Single) -> (r: Single)
        ensures
            r@ == self@.rem(other@),
            r.canonical(),
    {
        reveal(Val::rem);
        let a = self.unpack();
        let b = other.unpack();
        match a.class {
            Class::Nan => Single::nan(),
            Class::Inf => Single::nan(),
            Class::Fin => match b.class {
                Class::Nan => Single::nan(),
                Class::Inf => self,
                Class::Fin => {
                    proof {
                        lemma_zero_mag(b.man as nat, b.exp as nat);
                    }
                    if b.man == 0 {
                        Single::nan()
                    } else if a.exp < b.exp {
                        proof {
                            lemma_mag_order(a.man as nat, a.exp as nat, b.man as nat, b.exp as nat);
                            lemma_small_mod(
                                a.man as nat * pow2(a.exp as nat),
                                b.man as nat * pow2(b.exp as nat),
                            );
                        }
                        self
                    } else {
                        Single::rem_finite(&a, &b)
                    }
                },
            },
        }
    }

    /// The remainder of two finite magnitudes, the divisor not zero and its
    /// exponent not the greater one.
    fn rem_finite(a: &Parts, b: &Parts) -> (r: Single)
        requires
            a.man < 0x100_0000,
            0 < b.man < 0x100_0000,
            b.exp <= a.exp <= 253,
        ensures
            r@ == (Val::Fin {
                neg: a.neg,
                mag: (a.man as nat * pow2(a.exp as nat)) % (b.man as nat * pow2(b.exp as nat)),
            }),
            r.canonical(),
    {
        let d: u32 = a.exp - b.exp;
        let bm: u64 = b.man;
        let mut c: u64 = a.man % bm;
        let mut i: u32 = 0;
        proof {
            lemma2_to64();
            assert(a.man as nat * pow2(0) == a.man as nat) by (nonlinear_arith)
                requires
                    pow2(0) == 1,
            ;
        }
        while i < d
            invariant
                i <= d,
                bm == b.man,
                0 < bm < 0x100_0000,
                c == (a.man as nat * pow2(i as nat)) % (bm as nat),
            decreases d - i,
        {
            proof {
                let x = a.man as int * pow2(i as nat) as int;
                vstd::arithmetic::div_mod::lemma_mul_mod_noop_general(x, 2, bm as int);
                lemma_pow2_double(i as nat);
                assert(x * 2 == a.man as nat * pow2((i + 1) as nat)) by (nonlinear_arith)
                    requires
                        x == a.man as int * pow2(i as nat) as int,
                        pow2((i + 1) as nat) == 2 * pow2(i as nat),
                ;
            }
            c = (c * 2) % bm;
            i = i + 1;
        }
        proof {
            let pb = pow2(b.exp as nat);
            let x = a.man as nat * pow2(d as nat);
            lemma_pow2_pos(b.exp as nat);
            lemma_pow2_sum(d as nat, b.exp as nat);
            lemma_truncate_middle(x as int, pb as int, bm as int);
            assert(a.man as nat * pow2(a.exp as nat) == pb * x) by (nonlinear_arith)
                requires
                    pow2(a.exp as nat) == pow2(d as nat) * pb,
                    x == a.man as nat * pow2(d as nat),
            ;
            assert(b.man as nat * pb == pb * bm as nat) by (nonlinear_arith)
                requires
                    bm == b.man,
            ;
            assert(c as nat * pb == pb * (x % (bm as nat))) by (nonlinear_arith)
                requires
                    c == x % (bm as nat),
            ;
            lemma_pow2_monotone(b.exp as nat, 253);
            lemma_pow2_sum(24, 253);
            assert(c as nat * pb < pow2(277)) by (nonlinear_arith)
                requires
                    c < pow2(24),
                    1 <= pb <= pow2(253),
                    pow2(277) == pow2(24) * pow2(253),
            ;
        }
        Single::pack(a.neg, c, b.exp)
    }

    /// The sum, rounded to nearest.
    pub fn add(self, other: Single) -> (r: Single)
        ensures
            r@ == self@.add(other@),
            r.canonical(),
    {
        reveal(Val::add);
        let a = self.unpack();
        let b = other.unpack();
        match a.class {
            Class::Nan => Single::nan(),
            Class::Inf => match b.class {
                Class::Nan => Single::nan(),
                Class::Inf => if a.neg == b.neg {
                    self
                } else {
                    Single::nan()
                },
                Class::Fin => self,
            },
            Class::Fin => match b.class {
                Class::Nan => Single::nan(),
                Class::Inf => other,
                Class::Fin => if a.exp >= b.exp {
                    Single::add_finite(&a, &b)
                } else {
                    Single::add_finite(&b, &a)
                },
            },
        }
    }

    /// The difference, rounded to nearest.
    pub fn sub(self, other: Single) -> (r: Single)
        ensures
            r@ == self@.sub(other@),
            r.canonical(),
    {
        self.add(other.neg())
    }

    /// The sum of two finite values, the first with the greater exponent.
    fn add_finite(hi: &Parts, lo: &Parts) -> (r: Single)
        requires
            hi.man < 0x100_0000,
            lo.man < 0x100_0000,
            lo.exp <= hi.exp <= 253,
            hi.exp > 0 ==> hi.man >= 0x80_0000,
        ensures
            r@ == (Val::Fin { neg: hi.neg, mag: hi.man as nat * pow2(hi.exp as nat) }).add(
                Val::Fin { neg: lo.neg, mag: lo.man as nat * pow2(lo.exp as nat) },
            ),
            r@ == (Val::Fin { neg: lo.neg, mag: lo.man as nat * pow2(lo.exp as nat) }).add(
                Val::Fin { neg: hi.neg, mag: hi.man as nat * pow2(hi.exp as nat) },
            ),
            r.canonical(),
    {
        reveal(Val::add);
        let d: u32 = hi.exp - lo.exp;
        let g: u32 = if d <= 32 {
            d
        } else {
            32
        };
        let s: u32 = d - g;
        let pg: u64 = pow2_u64(g);
        proof {
            lemma2_to64();
            lemma2_to64_rest();
            lemma_pow2_monotone(g as nat, 32);
            assert(hi.man * pg < 0x100_0000_0000_0000) by (nonlinear_arith)
                requires
                    hi.man < 0x100_0000,
                    pg <= 0x1_0000_0000,
            ;
        }
        let big: u64 = hi.man * pg;
        let small: u64;
        let lost: bool;
        let ghost ps = pow2(s as nat);
        proof {
            lemma_pow2_pos(s as nat);
        }
        if s == 0 {
            small = lo.man;
            lost = false;
            assert(lo.man as nat / 1 == lo.man && lo.man as nat % 1 == 0);
        } else if s >= 24 {
            small = 0;
            lost = lo.man != 0;
            proof {
                lemma_pow2_monotone(24, s as nat);
                lemma_basic_div(lo.man as int, ps as int);
                lemma_small_mod(lo.man as nat, ps);
            }
        } else {
            let p: u64 = pow2_u64(s);
            small = lo.man / p;
            lost = lo.man % p != 0;
        }
        assert(small == lo.man as nat / ps);
        assert(lost == (lo.man as nat % ps != 0));
        proof {
            lemma_fundamental_div_mod(lo.man as int, ps as int);
            vstd::arithmetic::div_mod::lemma_mod_bound(lo.man as int, ps as int);
            if s > 0 {
                assert(hi.man >= 0x80_0000);
                assert(big >= 0x80_0000_0000_0000) by (nonlinear_arith)
                    requires
                        big == hi.man * pg,
                        hi.man >= 0x80_0000,
                        pg == 0x1_0000_0000,
                ;
            }
        }
        let x: i32 = (lo.exp + s) as i32;
        let n: u64;
        let neg: bool;
        let sticky: bool;
        // The exact sum is `top / ps` units of `2^x`.
        let ghost top: int;
        if hi.neg == lo.neg {
            n = big + small;
            neg = hi.neg;
            sticky = lost;
            proof {
                top = big * ps + lo.man;
            }
        } else if lost {
            n = big - small - 1;
            neg = hi.neg;
            sticky = true;
            proof {
                top = big * ps - lo.man;
            }
        } else if big >= small {
            n = big - small;
            neg = hi.neg;
            sticky = false;
            proof {
                top = big * ps - lo.man;
            }
        } else {
            n = small - big;
            neg = lo.neg;
            sticky = false;
            proof {
                top = lo.man - big * ps;
            }
        }
        proof {
            let rest = lo.man as nat % ps;
            assert(n * ps <= top < (n + 1) * ps && (n * ps != top) == sticky) by (nonlinear_arith)
                requires
                    lo.man == ps * small + rest,
                    0 <= rest < ps,
                    lost == (rest != 0),
                    if hi.neg == lo.neg {
                        n == big + small && sticky == lost && top == big * ps + lo.man
                    } else if lost {
                        n == big - small - 1 && sticky && top == big * ps - lo.man
                    } else if big >= small {
                        n == big - small && !sticky && top == big * ps - lo.man
                    } else {
                        n == small - big && !sticky && top == lo.man - big * ps && ps == 1
                    },
            ;
            let pl = pow2(lo.exp as nat);
            let ph = pow2(hi.exp as nat);
            lemma_pow2_pos(lo.exp as nat);
            lemma_pow2_sum(g as nat, s as nat);
            lemma_pow2_sum(d as nat, lo.exp as nat);
            lemma_pow2_sum(s as nat, lo.exp as nat);
            let px = pow2(x as nat);
            assert(ph == pg * ps * pl);
            assert(px == ps * pl);
            let hm = hi.man as nat * ph;
            let lm = lo.man as nat * pl;
            assert(hm == big * ps * pl) by (nonlinear_arith)
                requires
                    hm == hi.man as nat * ph,
                    ph == pg * ps * pl,
                    big == hi.man * pg,
            ;
            // The magnitude of the exact sum, in units of 2^-149.
            let total: int = top * pl;
            assert(top >= 0);
            assert(total >= 0) by (nonlinear_arith)
                requires
                    total == top * pl,
                    top >= 0,
                    pl > 0,
            ;
            assert(total == if hi.neg == lo.neg {
                (hm + lm) as int
            } else if n == small - big && big < small {
                lm - hm
            } else {
                hm - lm
            }) by (nonlinear_arith)
                requires
                    total == top * pl,
                    hm == big * ps * pl,
                    lm == lo.man as nat * pl,
                    if hi.neg == lo.neg {
                        top == big * ps + lo.man
                    } else if n == small - big && big < small {
                        top == lo.man - big * ps
                    } else {
                        top == big * ps - lo.man
                    },
            ;
            assert((total == 0) == (n == 0 && !sticky)) by (nonlinear_arith)
                requires
                    total == top * pl,
                    pl > 0,
                    n * ps <= top < (n + 1) * ps,
                    (n * ps != top) == sticky,
                    ps > 0,
                    n >= 0,
            ;
            lemma_jam_scaled(top as nat, ps, x as nat, 0, n as nat, sticky);
            assert(ps * pow2(0) == ps) by (nonlinear_arith)
                requires
                    pow2(0) == 1,
            ;
            assert((total as nat) * ps == (top as nat * px) * 1) by (nonlinear_arith)
                requires
                    total == top * pl,
                    px == ps * pl,
                    top >= 0,
            ;
            lemma_round_ratio_same_ratio(total as nat, 1, top as nat * px, ps);
            assert(round_ratio(total as nat, 1) == jam(n as nat, x as int, sticky));
        }
        if n == 0 && !sticky {
            Single::zero(hi.neg && lo.neg)
        } else {
            Single::round_pack(neg, n, x, sticky)
        }
    }

    /// The whole number `n`, rounded to nearest.
    pub fn from_i32(n: i32) -> (r: Single)
        ensures
            r@ == val_of_int(n as int),
            r.canonical(),
    {
        reveal(val_of_int);
        let neg = n < 0;
        let m: u64 = if neg {
            (-(n as i64)) as u64
        } else {
            n as u64
        };
        proof {
            lemma2_to64();
            assert(m as nat * 1 == m as nat);
            assert(1 * pow2(0) == 1);
            lemma_jam_scaled(m as nat, 1, 149, 0, m as nat, false);
        }
        Single::round_pack(neg, m, 149, false)
    }
}

impl Single {
    /// The quotient of two whole numbers, rounded: the way to write a decimal
    /// constant such as 135 / 100.
    pub fn from_ratio(num: i32, den: i32) -> (r: Single)
        ensures
            r@ == val_of_ratio(num as int, den as int),
            r.canonical(),
    {
        Single::from_i32(num).div(Single::from_i32(den))
    }
}

/// A magnitude is zero exactly if its significand is.
pub proof fn lemma_zero_mag(man: nat, exp: nat)
    ensures
        (man * pow2(exp) == 0) == (man == 0),
{
    lemma_pow2_pos(exp);
    assert((man * pow2(exp) == 0) == (man == 0)) by (nonlinear_arith)
        requires
            pow2(exp) > 0,
    ;
}

} // verus!
