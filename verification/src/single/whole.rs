//! Whole numbers: rounding to one, and the way to and from `i32`.
use crate::single::model::{one, Val};
use crate::single::repr::{pow2_u64, Class, Single};
use crate::single::rounding::{lemma_pow2_monotone, lemma_pow2_sum};
use vstd::arithmetic::div_mod::{lemma_basic_div, lemma_div_multiples_vanish_quotient, lemma_fundamental_div_mod, lemma_fundamental_div_mod_converse, lemma_small_mod, lemma_truncate_middle};
use vstd::arithmetic::power2::{lemma2_to64, lemma_pow2_pos, pow2};
use vstd::prelude::*;

verus! {

/// A magnitude whose exponent reaches 2^0 is a whole number.
pub proof fn lemma_whole_already(man: nat, exp: nat)
    requires
        exp >= 149,
    ensures
        ({
            let mag = man * pow2(exp);
            let whole = man * pow2((exp - 149) as nat);
            &&& mag == whole * one()
            &&& mag / one() == whole
            &&& mag % one() == 0
            &&& (2 * mag + one()) / (2 * one()) == whole
        }),
{
    let u = one();
    let mag = man * pow2(exp);
    let whole = man * pow2((exp - 149) as nat);
    lemma_pow2_pos(149);
    lemma_pow2_sum((exp - 149) as nat, 149);
    assert(mag == whole * u) by (nonlinear_arith)
        requires
            mag == man * pow2(exp),
            whole == man * pow2((exp - 149) as nat),
            pow2(exp) == pow2((exp - 149) as nat) * u,
    ;
    lemma_fundamental_div_mod_converse(mag as int, u as int, whole as int, 0);
    assert(2 * mag + u == whole * (2 * u) + u) by (nonlinear_arith)
        requires
            mag == whole * u,
    ;
    lemma_fundamental_div_mod_converse((2 * mag + u) as int, (2 * u) as int, whole as int, u as int);
}

/// The whole part of a magnitude whose exponent lies below 2^0, from its
/// significand alone.
pub proof fn lemma_whole_part(man: nat, exp: nat)
    requires
        exp < 149,
    ensures
        ({
            let mag = man * pow2(exp);
            let ps = pow2((149 - exp) as nat);
            &&& ps >= 2
            &&& mag / one() == man / ps
            &&& (mag % one() == 0) == (man % ps == 0)
            &&& (2 * mag + one()) / (2 * one()) == (2 * man + ps) / (2 * ps)
        }),
{
    let u = one();
    let pe = pow2(exp);
    let s = (149 - exp) as nat;
    let ps = pow2(s);
    let mag = man * pe;
    lemma2_to64();
    lemma_pow2_pos(exp);
    lemma_pow2_monotone(1, s);
    lemma_pow2_sum(exp, s);
    assert(u == pe * ps);
    lemma_div_multiples_vanish_quotient(pe as int, man as int, ps as int);
    assert(pe * man == mag) by (nonlinear_arith)
        requires
            mag == man * pe,
    ;
    lemma_truncate_middle(man as int, pe as int, ps as int);
    let rest = man % ps;
    assert((pe * rest == 0) == (rest == 0)) by (nonlinear_arith)
        requires
            pe > 0,
    ;
    lemma_div_multiples_vanish_quotient(pe as int, (2 * man + ps) as int, (2 * ps) as int);
    assert(pe * (2 * man + ps) == 2 * mag + u) by (nonlinear_arith)
        requires
            mag == man * pe,
            u == pe * ps,
    ;
    assert(pe * (2 * ps) == 2 * u) by (nonlinear_arith)
        requires
            u == pe * ps,
    ;
}

/// A whole number below 2^24, counted in units of 2^-149, is below the
/// overflow bound.
pub proof fn lemma_whole_fits(w: nat)
    requires
        w <= 0x100_0000,
    ensures
        w * one() < pow2(277),
{
    lemma2_to64();
    lemma_pow2_sum(128, 149);
    lemma_pow2_monotone(25, 128);
    assert(w * one() < pow2(277)) by (nonlinear_arith)
        requires
            w < pow2(25),
            pow2(25) <= pow2(128),
            pow2(277) == pow2(128) * one(),
            one() > 0,
    ;
}

impl Single {
    /// The nearest whole number, half-way cases away from zero.
    pub fn round(self) -> (r: Single)
        ensures
            r@ == self@.round(),
            r.canonical(),
    {
        reveal(Val::round);
        let p = self.unpack();
        match p.class {
            Class::Fin => {
                if p.exp >= 149 {
                    proof {
                        lemma_whole_already(p.man as nat, p.exp as nat);
                    }
                    self
                } else {
                    let s: u32 = 149 - p.exp;
                    proof {
                        lemma2_to64();
                        lemma_whole_part(p.man as nat, p.exp as nat);
                    }
                    let whole: u64 = if s >= 26 {
                        proof {
                            lemma_pow2_monotone(26, s as nat);
                            lemma_basic_div(
                                (2 * p.man + pow2(s as nat)) as int,
                                (2 * pow2(s as nat)) as int,
                            );
                        }
                        0
                    } else {
                        let ps: u64 = pow2_u64(s);
                        proof {
                            lemma_pow2_monotone(s as nat, 25);
                        }
                        let w: u64 = (2 * p.man + ps) / (2 * ps);
                        proof {
                            lemma_fundamental_div_mod((2 * p.man + ps) as int, (2 * ps) as int);
                            let rest = (2 * p.man + ps) % (2 * ps);
                            assert(w <= 0x80_0000) by (nonlinear_arith)
                                requires
                                    2 * p.man + ps == (2 * ps) * w + rest,
                                    rest >= 0,
                                    ps >= 2,
                                    p.man < 0x100_0000,
                            ;
                        }
                        w
                    };
                    proof {
                        lemma_whole_fits(whole as nat);
                    }
                    Single::pack(p.neg, whole, 149)
                }
            },
            Class::Nan => Single { bits: 0x7fc0_0000 },
            Class::Inf => self,
        }
    }

    /// The least whole number that is not below the value.
    pub fn ceil(self) -> (r: Single)
        ensures
            r@ == self@.ceil(),
            r.canonical(),
    {
        reveal(Val::ceil);
        let p = self.unpack();
        match p.class {
            Class::Fin => {
                if p.exp >= 149 {
                    proof {
                        lemma_whole_already(p.man as nat, p.exp as nat);
                    }
                    self
                } else {
                    let s: u32 = 149 - p.exp;
                    proof {
                        lemma2_to64();
                        lemma_whole_part(p.man as nat, p.exp as nat);
                    }
                    let floor: u64;
                    let exact: bool;
                    if s >= 24 {
                        proof {
                            lemma_pow2_monotone(24, s as nat);
                            lemma_basic_div(p.man as int, pow2(s as nat) as int);
                            lemma_small_mod(p.man as nat, pow2(s as nat));
                        }
                        floor = 0;
                        exact = p.man == 0;
                    } else {
                        let ps: u64 = pow2_u64(s);
                        floor = p.man / ps;
                        exact = p.man % ps == 0;
                    }
                    let whole: u64 = if p.neg || exact {
                        floor
                    } else {
                        floor + 1
                    };
                    proof {
                        lemma_whole_fits(whole as nat);
                        let mag = p.man as nat * pow2(p.exp as nat);
                        lemma_pow2_pos(149);
                        lemma_fundamental_div_mod(mag as int, one() as int);
                        assert(exact ==> mag == floor * one()) by (nonlinear_arith)
                            requires
                                mag == one() * (mag / one()) + mag % one(),
                                exact ==> mag % one() == 0,
                                floor == mag / one(),
                        ;
                    }
                    Single::pack(p.neg, whole, 149)
                }
            },
            Class::Nan => Single { bits: 0x7fc0_0000 },
            Class::Inf => self,
        }
    }

    /// The value cut off toward zero and brought into the range of `i32`;
    /// not-a-number gives 0.
    pub fn to_i32(self) -> (r: i32)
        ensures
            r == self@.to_i32(),
    {
        reveal(Val::to_i32);
        let p = self.unpack();
        match p.class {
            Class::Nan => 0,
            Class::Inf => if p.neg {
                -0x8000_0000
            } else {
                0x7fff_ffff
            },
            Class::Fin => {
                proof {
                    lemma2_to64();
                }
                let whole: u64 = if p.exp >= 149 {
                    let up: u32 = p.exp - 149;
                    proof {
                        lemma_whole_already(p.man as nat, p.exp as nat);
                    }
                    if up >= 8 {
                        proof {
                            lemma_pow2_monotone(8, up as nat);
                            assert(p.man as nat * pow2(up as nat) >= 0x8000_0000) by (nonlinear_arith)
                                requires
                                    p.man >= 0x80_0000,
                                    pow2(up as nat) >= 0x100,
                            ;
                        }
                        0x8000_0000
                    } else {
                        let pu: u64 = pow2_u64(up);
                        proof {
                            lemma_pow2_monotone(up as nat, 7);
                            assert(p.man * pu < 0x8000_0000) by (nonlinear_arith)
                                requires
                                    p.man < 0x100_0000,
                                    pu <= 0x80,
                            ;
                        }
                        p.man * pu
                    }
                } else {
                    let s: u32 = 149 - p.exp;
                    proof {
                        lemma_whole_part(p.man as nat, p.exp as nat);
                    }
                    if s >= 24 {
                        proof {
                            lemma_pow2_monotone(24, s as nat);
                            lemma_basic_div(p.man as int, pow2(s as nat) as int);
                        }
                        0
                    } else {
                        let ps: u64 = pow2_u64(s);
                        p.man / ps
                    }
                };
                if p.neg {
                    if whole >= 0x8000_0000 {
                        -0x8000_0000
                    } else {
                        -(whole as i32)
                    }
                } else {
                    if whole >= 0x7fff_ffff {
                        0x7fff_ffff
                    } else {
                        whole as i32
                    }
                }
            },
        }
    }
}

} // verus!
