//! Facts about [`round_ratio`]: where it is exact, that it depends on the
//! ratio alone, and that a truncated numerator with a sticky flag decides it.
use crate::single::model::{binade, round_ratio};
use vstd::arithmetic::div_mod::*;
use vstd::arithmetic::power2::*;
use vstd::prelude::*;

verus! {

/// The bound on a significand, 2^24, and the least normal one, 2^23.
pub open spec fn significand_bound() -> nat {
    0x100_0000
}

pub open spec fn least_normal() -> nat {
    0x80_0000
}

pub proof fn lemma_pow2_double(e: nat)
    ensures
        pow2(e + 1) == 2 * pow2(e),
        pow2(e) >= 1,
{
    lemma_pow2_unfold(e + 1);
    lemma_pow2_pos(e);
}

pub proof fn lemma_pow2_sum(a: nat, b: nat)
    ensures
        pow2(a + b) == pow2(a) * pow2(b),
        pow2(a) >= 1,
        pow2(b) >= 1,
        pow2(a + b) >= 1,
{
    lemma_pow2_adds(a, b);
    lemma_pow2_pos(a);
    lemma_pow2_pos(b);
    lemma_pow2_pos(a + b);
}

pub proof fn lemma_pow2_monotone(a: nat, b: nat)
    requires
        a <= b,
    ensures
        1 <= pow2(a) <= pow2(b),
{
    lemma_pow2_pos(a);
    if a < b {
        lemma_pow2_strictly_increases(a, b);
    }
}

/// A number that lies in the interval of the significand `q` at exponent `e`
/// has `e` as its binade.
pub proof fn lemma_binade_of(whole: nat, e: nat, q: nat)
    requires
        q * pow2(e) <= whole < (q + 1) * pow2(e),
        q < significand_bound(),
        e > 0 ==> q >= least_normal(),
    ensures
        binade(whole) == e,
    decreases e,
{
    if e == 0 {
        lemma2_to64();
        assert(q * pow2(0) == q) by (nonlinear_arith)
            requires
                pow2(0) == 1,
        ;
        assert((q + 1) * pow2(0) == q + 1) by (nonlinear_arith)
            requires
                pow2(0) == 1,
        ;
    } else {
        let f = (e - 1) as nat;
        lemma_pow2_double(f);
        let h = pow2(f);
        assert(q * pow2(e) == 2 * (q * h)) by (nonlinear_arith)
            requires
                pow2(e) == 2 * h,
        ;
        assert((q + 1) * pow2(e) == 2 * ((q + 1) * h)) by (nonlinear_arith)
            requires
                pow2(e) == 2 * h,
        ;
        assert(q * h >= 0x80_0000) by (nonlinear_arith)
            requires
                q >= 0x80_0000,
                h >= 1,
        ;
        lemma_binade_of(whole / 2, f, q);
    }
}

/// Dividing a number by two to the power of its binade leaves a significand,
/// a normal one unless the binade is 0.
pub proof fn lemma_binade_range(n: nat)
    ensures
        n / pow2(binade(n)) < significand_bound(),
        binade(n) > 0 ==> n / pow2(binade(n)) >= least_normal(),
        n < significand_bound() <==> binade(n) == 0,
    decreases n,
{
    lemma2_to64();
    if n < 0x100_0000 {
    } else {
        let b = binade(n / 2);
        lemma_binade_range(n / 2);
        lemma_pow2_double(b);
        lemma_div_denominator(n as int, 2, pow2(b) as int);
        assert(2 * pow2(b) == pow2(b + 1));
        assert(n / pow2(b + 1) == (n / 2) / pow2(b));
    }
}

/// The rounding rule at a given exponent: the significand `q`, moved up by one
/// where the remainder `r` of the division by `step` asks for it.
pub open spec fn nearest_even(q: nat, r: nat, step: nat, e: nat) -> nat {
    if 2 * r > step || (2 * r == step && q % 2 == 1) {
        (q + 1) * pow2(e)
    } else {
        q * pow2(e)
    }
}

/// `round_ratio` from any decomposition of the numerator at an exponent at
/// which the quotient is a significand.
pub proof fn lemma_round_ratio_at(num: nat, den: nat, e: nat, q: nat, r: nat)
    requires
        den > 0,
        num == q * (den * pow2(e)) + r,
        r < den * pow2(e),
        q < significand_bound(),
        e > 0 ==> q >= least_normal(),
    ensures
        round_ratio(num, den) == nearest_even(q, r, den * pow2(e), e),
{
    reveal(round_ratio);
    let p = pow2(e);
    let step = den * p;
    lemma_pow2_pos(e);
    let a = r / den;
    let b = r % den;
    lemma_fundamental_div_mod(r as int, den as int);
    assert(a < p) by (nonlinear_arith)
        requires
            r == den * a + b,
            b >= 0,
            r < den * p,
            den > 0,
    ;
    assert(num == (q * p + a) * den + b) by (nonlinear_arith)
        requires
            num == q * (den * p) + r,
            r == den * a + b,
    ;
    lemma_fundamental_div_mod_converse(num as int, den as int, (q * p + a) as int, b as int);
    let whole = num / den;
    assert(whole == q * p + a);
    assert((q + 1) * p == q * p + p) by (nonlinear_arith);
    lemma_binade_of(whole, e, q);
    lemma_fundamental_div_mod_converse(num as int, step as int, q as int, r as int);
}

/// A magnitude with at most 24 significant bits is its own rounding.
pub proof fn lemma_round_ratio_exact(m: nat, e: nat, den: nat)
    requires
        den > 0,
        m < significand_bound(),
    ensures
        round_ratio(m * pow2(e) * den, den) == m * pow2(e),
    decreases e,
{
    let p = pow2(e);
    lemma_pow2_pos(e);
    if e == 0 || m >= 0x80_0000 {
        assert(m * p * den == m * (den * p) + 0) by (nonlinear_arith);
        assert(0 < den * p) by (nonlinear_arith)
            requires
                den > 0,
                p > 0,
        ;
        lemma_round_ratio_at(m * p * den, den, e, m, 0);
    } else {
        let f = (e - 1) as nat;
        lemma_pow2_double(f);
        assert(m * p == (2 * m) * pow2(f)) by (nonlinear_arith)
            requires
                p == 2 * pow2(f),
        ;
        lemma_round_ratio_exact(2 * m, f, den);
    }
}

/// `round_ratio` depends on the ratio alone, not on how it is written.
pub proof fn lemma_round_ratio_same_ratio(num: nat, den: nat, num2: nat, den2: nat)
    requires
        den > 0,
        den2 > 0,
        num * den2 == num2 * den,
    ensures
        round_ratio(num, den) == round_ratio(num2, den2),
{
    reveal(round_ratio);
    let whole = num / den;
    let e = binade(whole);
    let p = pow2(e);
    lemma_pow2_pos(e);
    let step = den * p;
    assert(step > 0) by (nonlinear_arith)
        requires
            step == den * p,
            den > 0,
            p > 0,
    ;
    let q = num / step;
    let r = num % step;
    lemma_fundamental_div_mod(num as int, step as int);
    lemma_binade_range(whole);
    lemma_div_denominator(num as int, den as int, p as int);
    assert(q == whole / p);
    let step2 = den2 * p;
    let r2: int = num2 - q * step2;
    assert(r2 * den == r * den2) by (nonlinear_arith)
        requires
            r2 == num2 - q * (den2 * p),
            num == (den * p) * q + r,
            num * den2 == num2 * den,
    ;
    assert(r2 >= 0) by (nonlinear_arith)
        requires
            r2 * den == r * den2,
            r >= 0,
            den > 0,
            den2 > 0,
    ;
    assert(r2 < step2) by (nonlinear_arith)
        requires
            r2 * den == r * den2,
            r < den * p,
            step2 == den2 * p,
            den > 0,
            den2 > 0,
    ;
    assert((2 * r2 > step2) == (2 * r > step)) by (nonlinear_arith)
        requires
            r2 * den == r * den2,
            step == den * p,
            step2 == den2 * p,
            den > 0,
            den2 > 0,
    ;
    assert((2 * r2 == step2) == (2 * r == step)) by (nonlinear_arith)
        requires
            r2 * den == r * den2,
            step == den * p,
            step2 == den2 * p,
            den > 0,
            den2 > 0,
    ;
    assert(num2 == q * (den2 * p) + r2);
    lemma_round_ratio_at(num2, den2, e, q, r2 as nat);
}

/// By how many bits a truncated numerator `n`, counted in units of `2^x`, is
/// cut to reach its significand: down to 24 bits, and further where the unit
/// lies below 2^-149.
pub open spec fn jam_shift(n: nat, x: int) -> nat {
    let b = binade(n) as int;
    if b >= -x {
        b as nat
    } else {
        (-x) as nat
    }
}

/// The rounding of a value that lies in `[n, n + 1)` units of `2^x`: at `n`
/// itself unless `sticky`, strictly above it otherwise.
pub open spec fn jam(n: nat, x: int, sticky: bool) -> nat {
    let k = jam_shift(n, x);
    let t = (x + k) as nat;
    let q = n / pow2(k);
    let r = n % pow2(k);
    if 2 * r > pow2(k) || (2 * r == pow2(k) && (sticky || q % 2 == 1)) {
        (q + 1) * pow2(t)
    } else {
        q * pow2(t)
    }
}

/// The ratio `num / den` lies in `[n, n + 1)` units of `2^x`, at `n` itself
/// exactly if `sticky` is false; and a sticky `n` keeps a bit to round on.
pub open spec fn brackets(num: nat, den: nat, n: nat, x: int, sticky: bool) -> bool {
    let up = pow2(
        if x > 0 {
            x as nat
        } else {
            0
        },
    );
    let down = pow2(
        if x < 0 {
            (-x) as nat
        } else {
            0
        },
    );
    &&& den > 0
    &&& n * (up * den) <= num * down < (n + 1) * (up * den)
    &&& sticky == (n * (up * den) != num * down)
    &&& sticky ==> (n >= significand_bound() || x < 0)
}

/// A truncated numerator and its sticky flag decide the rounding of the ratio
/// that they bracket.
pub proof fn lemma_jam(num: nat, den: nat, n: nat, x: int, sticky: bool)
    requires
        brackets(num, den, n, x, sticky),
    ensures
        round_ratio(num, den) == jam(n, x, sticky),
{
    let xu: nat = if x > 0 {
        x as nat
    } else {
        0
    };
    let xd: nat = if x < 0 {
        (-x) as nat
    } else {
        0
    };
    let up = pow2(xu);
    let down = pow2(xd);
    lemma_pow2_pos(xu);
    lemma_pow2_pos(xd);
    lemma2_to64();
    let w = up * den;
    assert(w > 0) by (nonlinear_arith)
        requires
            w == up * den,
            up > 0,
            den > 0,
    ;
    let num1 = num * down;
    let den1 = den * down;
    assert(den1 > 0) by (nonlinear_arith)
        requires
            den1 == den * down,
            down > 0,
            den > 0,
    ;
    assert(num * den1 == num1 * den) by (nonlinear_arith)
        requires
            num1 == num * down,
            den1 == den * down,
    ;
    lemma_round_ratio_same_ratio(num, den, num1, den1);
    let k = jam_shift(n, x);
    let t = (x + k) as nat;
    let pk = pow2(k);
    let pt = pow2(t);
    lemma_pow2_pos(k);
    lemma_pow2_pos(t);
    let q = n / pk;
    let rn = n % pk;
    lemma_fundamental_div_mod(n as int, pk as int);
    lemma_binade_range(n);
    assert(den1 * pt == w * pk) by {
        if x >= 0 {
            lemma_pow2_sum(xu, k);
            assert(den * 1 * (up * pk) == (up * den) * pk) by (nonlinear_arith);
        } else {
            lemma_pow2_sum(xd, t);
            assert(den * down * pt == (1 * den) * (down * pt)) by (nonlinear_arith);
        }
    }
    if n < 0x100_0000 && t > 0 {
        assert(k == 0 && x == t && !sticky);
        lemma_round_ratio_exact(n, t, den);
        assert(num == n * pt * den) by (nonlinear_arith)
            requires
                n * (pt * den) == num * 1,
        ;
        assert(pk == 1);
        assert(n / 1 == n && n % 1 == 0);
        assert(q == n && rn == 0);
    } else {
        lemma_pow2_monotone(binade(n), k);
        lemma_div_is_ordered_by_denominator(n as int, pow2(binade(n)) as int, pk as int);
        assert(q < 0x100_0000);
        assert(t > 0 ==> q >= 0x80_0000);
        let r1: int = num1 - q * (w * pk);
        assert(rn * w <= r1 < (rn + 1) * w) by (nonlinear_arith)
            requires
                r1 == num1 - q * (w * pk),
                n == pk * q + rn,
                n * w <= num1 < (n + 1) * w,
        ;
        assert(0 <= r1 < w * pk) by (nonlinear_arith)
            requires
                rn * w <= r1 < (rn + 1) * w,
                0 <= rn,
                rn + 1 <= pk,
                w > 0,
        ;
        assert(num1 == q * (den1 * pt) + r1);
        lemma_round_ratio_at(num1, den1, t, q, r1 as nat);
        if sticky {
            assert(k >= 1);
            let h = pow2((k - 1) as nat);
            lemma_pow2_double((k - 1) as nat);
            assert(pk == 2 * h);
            assert(r1 != rn * w) by (nonlinear_arith)
                requires
                    r1 == num1 - q * (w * pk),
                    n == pk * q + rn,
                    n * w != num1,
            ;
            if rn >= h {
                assert(2 * r1 > w * pk) by (nonlinear_arith)
                    requires
                        rn * w < r1,
                        rn >= h,
                        pk == 2 * h,
                        w > 0,
                ;
            } else {
                assert(2 * r1 < w * pk) by (nonlinear_arith)
                    requires
                        r1 < (rn + 1) * w,
                        rn + 1 <= h,
                        pk == 2 * h,
                        w > 0,
                ;
            }
        } else {
            assert(r1 == rn * w) by (nonlinear_arith)
                requires
                    r1 == num1 - q * (w * pk),
                    n == pk * q + rn,
                    n * w == num1,
            ;
            assert((2 * r1 > w * pk) == (2 * rn > pk)) by (nonlinear_arith)
                requires
                    r1 == rn * w,
                    w > 0,
            ;
            assert((2 * r1 == w * pk) == (2 * rn == pk)) by (nonlinear_arith)
                requires
                    r1 == rn * w,
                    w > 0,
            ;
        }
    }
}

/// [`lemma_jam`] for a ratio whose numerator and denominator each carry a
/// power of two: `n` is the whole part of `nn / dd`, and the unit is two to
/// the difference of the exponents.
pub proof fn lemma_jam_scaled(nn: nat, dd: nat, en: nat, ed: nat, n: nat, sticky: bool)
    requires
        dd > 0,
        n * dd <= nn < (n + 1) * dd,
        sticky == (n * dd != nn),
        sticky ==> (n >= significand_bound() || en < ed),
    ensures
        round_ratio(nn * pow2(en), dd * pow2(ed)) == jam(n, en - ed, sticky),
{
    let x = en - ed;
    let pn = pow2(en);
    let pd = pow2(ed);
    lemma_pow2_pos(en);
    lemma_pow2_pos(ed);
    lemma2_to64();
    assert(dd * pd > 0) by (nonlinear_arith)
        requires
            dd > 0,
            pd > 0,
    ;
    if x >= 0 {
        let px = pow2(x as nat);
        lemma_pow2_sum(x as nat, ed);
        assert(pn == px * pd);
        assert((nn * pn) * dd == (nn * px) * (dd * pd)) by (nonlinear_arith)
            requires
                pn == px * pd,
        ;
        lemma_round_ratio_same_ratio(nn * pn, dd * pd, nn * px, dd);
        assert(n * (px * dd) <= (nn * px) * 1 < (n + 1) * (px * dd)) by (nonlinear_arith)
            requires
                n * dd <= nn < (n + 1) * dd,
                px > 0,
        ;
        assert((n * (px * dd) != (nn * px) * 1) == (n * dd != nn)) by (nonlinear_arith)
            requires
                px > 0,
        ;
        assert(brackets(nn * px, dd, n, x, sticky));
        lemma_jam(nn * px, dd, n, x, sticky);
    } else {
        let px = pow2((-x) as nat);
        lemma_pow2_sum((-x) as nat, en);
        assert(pd == px * pn);
        assert((nn * pn) * (dd * px) == nn * (dd * pd)) by (nonlinear_arith)
            requires
                pd == px * pn,
        ;
        assert(dd * px > 0) by (nonlinear_arith)
            requires
                dd > 0,
                px > 0,
        ;
        lemma_round_ratio_same_ratio(nn * pn, dd * pd, nn, dd * px);
        assert(n * (1 * (dd * px)) <= nn * px < (n + 1) * (1 * (dd * px))) by (nonlinear_arith)
            requires
                n * dd <= nn < (n + 1) * dd,
                px > 0,
        ;
        assert((n * (1 * (dd * px)) != nn * px) == (n * dd != nn)) by (nonlinear_arith)
            requires
                px > 0,
        ;
        assert(brackets(nn, dd * px, n, x, sticky));
        lemma_jam(nn, dd * px, n, x, sticky);
    }
}

/// Magnitudes with normal significands are ordered by exponent first and by
/// significand second.
pub proof fn lemma_mag_order(ma: nat, ea: nat, mb: nat, eb: nat)
    requires
        ma < significand_bound(),
        mb < significand_bound(),
        ea > 0 ==> ma >= least_normal(),
        eb > 0 ==> mb >= least_normal(),
    ensures
        (ma * pow2(ea) < mb * pow2(eb)) == (ea < eb || (ea == eb && ma < mb)),
        (ma * pow2(ea) == mb * pow2(eb)) == (ea == eb && ma == mb),
{
    lemma_pow2_pos(ea);
    lemma_pow2_pos(eb);
    if ea < eb {
        lemma_mag_below(ma, ea, mb, eb);
    } else if eb < ea {
        lemma_mag_below(mb, eb, ma, ea);
    } else {
        let p = pow2(ea);
        assert((ma * p < mb * p) == (ma < mb)) by (nonlinear_arith)
            requires
                p > 0,
        ;
        assert((ma * p == mb * p) == (ma == mb)) by (nonlinear_arith)
            requires
                p > 0,
        ;
    }
}

/// A magnitude lies below every normal magnitude of a higher exponent.
pub proof fn lemma_mag_below(ma: nat, ea: nat, mb: nat, eb: nat)
    requires
        ma < significand_bound(),
        mb >= least_normal(),
        ea < eb,
    ensures
        ma * pow2(ea) < mb * pow2(eb),
{
    lemma_pow2_monotone(ea + 1, eb);
    lemma_pow2_double(ea);
    let p = pow2(ea);
    let q = pow2(eb);
    assert(ma * p < mb * q) by (nonlinear_arith)
        requires
            ma < 0x100_0000,
            mb >= 0x80_0000,
            q >= 2 * p,
            p >= 1,
    ;
}

} // verus!
