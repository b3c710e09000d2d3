//! Facts about the model that hold of every operand: the values of small
//! whole numbers, signs, and order.
use crate::single::model::{binade, one, round_ratio, settle, val_of_int, val_of_ratio, Val};
use crate::single::repr::Single;
use crate::single::rounding::{lemma_binade_range, lemma_mag_order, lemma_pow2_double, lemma_pow2_monotone, lemma_pow2_sum, lemma_round_ratio_at, lemma_round_ratio_exact, lemma_round_ratio_same_ratio};
use vstd::arithmetic::div_mod::{lemma_truncate_middle, lemma_div_by_multiple, lemma_div_denominator, lemma_mod_multiples_basic, lemma_fundamental_div_mod, lemma_fundamental_div_mod_converse, lemma_mod_bound};
use vstd::arithmetic::power2::{lemma2_to64, lemma_pow2_pos, lemma_pow2_strictly_increases, pow2};
use vstd::prelude::*;

verus! {

/// A whole number below 2^24 in magnitude is a binary32 value.
pub proof fn lemma_val_of_small_int(n: int)
    requires
        -0x100_0000 < n < 0x100_0000,
    ensures
        val_of_int(n) == (Val::Fin { neg: n < 0, mag: (if n < 0 {
            -n
        } else {
            n
        }) as nat * one() }),
        one() > 0,
        (if n < 0 {
            -n
        } else {
            n
        }) * one() < pow2(277),
{
    reveal(val_of_int);
    let m: nat = (if n < 0 {
        -n
    } else {
        n
    }) as nat;
    lemma_round_ratio_exact(m, 149, 1);
    assert(m * pow2(149) * 1 == m * one()) by (nonlinear_arith)
        requires
            one() == pow2(149),
    ;
    lemma2_to64();
    lemma_pow2_pos(149);
    lemma_pow2_sum(128, 149);
    lemma_pow2_monotone(24, 128);
    assert(m * one() < pow2(277)) by (nonlinear_arith)
        requires
            m < pow2(24),
            pow2(24) <= pow2(128),
            pow2(277) == pow2(128) * one(),
            one() > 0,
    ;
}

/// Two bit patterns that denote the same number are the same bits: only
/// not-a-number has more than one pattern.
pub proof fn lemma_view_injective(a: Single, b: Single)
    requires
        a@ == b@,
        !(a@ is Nan),
    ensures
        a.bits == b.bits,
{
    let fa = (a.bits as nat / 0x80_0000) % 256;
    let fb = (b.bits as nat / 0x80_0000) % 256;
    let ra = a.bits as nat % 0x80_0000;
    let rb = b.bits as nat % 0x80_0000;
    if a@ is Fin {
        let ea: nat = if fa == 0 {
            0
        } else {
            (fa - 1) as nat
        };
        let eb: nat = if fb == 0 {
            0
        } else {
            (fb - 1) as nat
        };
        let ma: nat = if fa == 0 {
            ra
        } else {
            0x80_0000 + ra
        };
        let mb: nat = if fb == 0 {
            rb
        } else {
            0x80_0000 + rb
        };
        lemma2_to64();
        assert(ma * pow2(0) == ma) by (nonlinear_arith)
            requires
                pow2(0) == 1,
        ;
        assert(mb * pow2(0) == mb) by (nonlinear_arith)
            requires
                pow2(0) == 1,
        ;
        lemma_mag_order(ma, ea, mb, eb);
        assert(ma == mb && ea == eb);
        assert(fa == 0 <==> ma < 0x80_0000);
        assert(fa == fb && ra == rb);
    }
}

/// Not-a-number is in no order.
pub proof fn lemma_order_needs_numbers(a: Val, b: Val)
    ensures
        a.lt(b) || a.same(b) ==> !(a is Nan) && !(b is Nan),
{
    reveal(Val::lt);
    reveal(Val::same);
}

/// A number is not above its negation exactly if it is not above zero.
pub proof fn lemma_neg_le(a: Val)
    requires
        Val::zero().le(a),
    ensures
        a.neg().le(a),
        a.neg().le(Val::zero()),
{
    reveal(Val::lt);
    reveal(Val::same);
}

/// The greater of `a` and a number `b` is a number, one of the two, and not
/// below either.
pub proof fn lemma_max_is_upper(a: Val, b: Val)
    requires
        !(b is Nan),
    ensures
        !(a.max(b) is Nan),
        a.max(b) == a || a.max(b) == b,
        b.le(a.max(b)),
        !(a is Nan) ==> a.le(a.max(b)),
{
    reveal(Val::lt);
    reveal(Val::same);
}

/// The lesser of `a` and a number `b` is a number, one of the two, and not
/// above either.
pub proof fn lemma_min_is_lower(a: Val, b: Val)
    requires
        !(b is Nan),
    ensures
        !(a.min(b) is Nan),
        a.min(b) == a || a.min(b) == b,
        a.min(b).le(b),
        !(a is Nan) ==> a.min(b).le(a),
{
    reveal(Val::lt);
    reveal(Val::same);
}

/// Rounding a whole count of units neither loses it nor more than doubles it.
pub proof fn lemma_round_ratio_bounds(n: nat)
    requires
        n >= 1,
    ensures
        1 <= round_ratio(n, 1) <= 2 * n,
{
    reveal(round_ratio);
    let e = binade(n);
    let p = pow2(e);
    lemma_pow2_pos(e);
    lemma_binade_range(n);
    lemma_fundamental_div_mod(n as int, p as int);
    let q = n / p;
    let r = n % p;
    assert(n / 1 == n);
    assert(1 * p == p);
    lemma2_to64();
    if e == 0 {
        assert(q == n);
    }
    assert(q >= 1);
    assert(q * p >= 1 && (q + 1) * p <= 2 * n && q * p <= n) by (nonlinear_arith)
        requires
            q >= 1,
            p >= 1,
            n == p * q + r,
            r >= 0,
    ;
    assert((q + 1) * p >= 1) by (nonlinear_arith)
        requires
            q >= 1,
            p >= 1,
    ;
}

/// What is left of `x` after `t` is taken off and nothing below zero is kept
/// is positive exactly if `x` is greater than `t`.
pub proof fn lemma_remainder_positive(x: Val, t: Val)
    requires
        t is Fin,
    ensures
        x.sub(t).max(Val::zero()).gt(Val::zero()) == x.gt(t),
{
    reveal(Val::add);
    reveal(Val::lt);
    if x is Fin {
        let sum = x.signed() - t.signed();
        assert(x.signed() + t.neg().signed() == sum);
        if sum > 0 {
            lemma_round_ratio_bounds(sum as nat);
        } else if sum < 0 {
            lemma_round_ratio_bounds((-sum) as nat);
        }
    }
}

/// One sixtieth, rounded, is the binary32 number 8947849 * 2^-29.
pub proof fn lemma_tick_value()
    ensures
        val_of_ratio(1, 60) == (Val::Fin { neg: false, mag: 0x88_8889 * pow2(120) }),
        0 < 0x88_8889 * pow2(120) < one(),
{
    reveal(Val::div);
    lemma_val_of_small_int(1);
    lemma_val_of_small_int(60);
    let u = one();
    let p = pow2(120);
    lemma2_to64();
    lemma_pow2_pos(120);
    lemma_pow2_sum(29, 120);
    assert(u == 0x2000_0000 * p);
    assert((1 * u) * u * 60 == u * (60 * u)) by (nonlinear_arith);
    assert(60 * u > 0);
    lemma_round_ratio_same_ratio((1 * u) * u, 60 * u, u, 60);
    assert(u == 0x88_8888 * (60 * p) + 32 * p) by (nonlinear_arith)
        requires
            u == 0x2000_0000 * p,
    ;
    assert(32 * p < 60 * p) by (nonlinear_arith)
        requires
            p > 0,
    ;
    lemma_round_ratio_at(u, 60, 120, 0x88_8888, 32 * p);
    assert(2 * (32 * p) > 60 * p) by (nonlinear_arith)
        requires
            p > 0,
    ;
    assert(0 < 0x88_8889 * p < u) by (nonlinear_arith)
        requires
            u == 0x2000_0000 * p,
            p > 0,
    ;
    lemma_pow2_strictly_increases(149, 277);
}

/// Nothing rounds to nothing.
pub proof fn lemma_round_ratio_zero(den: nat)
    requires
        den > 0,
    ensures
        round_ratio(0, den) == 0,
{
    lemma2_to64();
    lemma_round_ratio_exact(0, 0, den);
    assert(0 * pow2(0) * den == 0) by (nonlinear_arith);
    assert(0 * pow2(0) == 0);
}

/// A coordinate in whole pixels is its own rounding, and adding zero to it
/// changes nothing.
pub proof fn lemma_pixel_is_fixed(v: Val)
    requires
        v.is_pixel(),
    ensures
        v.round() == v,
        v.add(Val::zero()) == v,
{
    reveal(Val::round);
    reveal(Val::add);
    let u = one();
    let k = v.mag() / u;
    lemma_pow2_pos(149);
    lemma_fundamental_div_mod(v.mag() as int, u as int);
    assert(v.mag() == k * u) by (nonlinear_arith)
        requires
            v.mag() == u * k + v.mag() % u,
            v.mag() % u == 0,
    ;
    assert(2 * v.mag() + u == k * (2 * u) + u) by (nonlinear_arith)
        requires
            v.mag() == k * u,
    ;
    lemma_fundamental_div_mod_converse((2 * v.mag() + u) as int, (2 * u) as int, k as int, u as int);
    lemma_round_ratio_exact(k, 149, 1);
    assert(k * pow2(149) * 1 == k * u) by (nonlinear_arith)
        requires
            u == pow2(149),
    ;
    lemma2_to64();
    lemma_pow2_sum(128, 149);
    lemma_pow2_monotone(24, 128);
    assert(k * u < pow2(277)) by (nonlinear_arith)
        requires
            k < pow2(24),
            pow2(24) <= pow2(128),
            pow2(277) == pow2(128) * u,
            u > 0,
    ;
}

/// Positive zero times a finite number of clear sign, and over one that is
/// not zero, is positive zero; and so is its rounding.
pub proof fn lemma_zero_stays(t: Val)
    requires
        t is Fin,
        !t.is_neg(),
    ensures
        Val::zero().mul(t) == Val::zero(),
        t.mag() > 0 ==> Val::zero().div(t) == Val::zero(),
        Val::zero().round() == Val::zero(),
{
    reveal(Val::mul);
    reveal(Val::div);
    reveal(Val::round);
    lemma_pow2_pos(149);
    lemma_pow2_pos(277);
    lemma_round_ratio_zero(one());
    assert(0 * t.mag() == 0);
    assert(0 * one() == 0);
    if t.mag() > 0 {
        lemma_round_ratio_zero(t.mag());
    }
    lemma_fundamental_div_mod_converse(one() as int, (2 * one()) as int, 0, one() as int);
}

/// A count of substeps, as a number: finite, positive.
pub proof fn lemma_count_is_positive(n: int)
    requires
        1 <= n <= 0x7fff_ffff,
    ensures
        val_of_int(n) is Fin,
        !val_of_int(n).is_neg(),
        val_of_int(n).mag() > 0,
{
    reveal(val_of_int);
    let m = (n * one()) as nat;
    lemma_pow2_pos(149);
    assert(m >= 1) by (nonlinear_arith)
        requires
            m == n * one(),
            n >= 1,
            one() >= 1,
    ;
    lemma_round_ratio_bounds(m);
    lemma2_to64();
    lemma_pow2_sum(128, 149);
    lemma_pow2_monotone(33, 128);
    lemma_pow2_sum(32, 1);
    assert(2 * m < pow2(277)) by (nonlinear_arith)
        requires
            m == n * one(),
            n < pow2(32),
            pow2(33) == 2 * pow2(32),
            pow2(33) <= pow2(128),
            pow2(277) == pow2(128) * one(),
            one() > 0,
    ;
}

/// Numbers of clear sign stay so under the operations of a fall: times a
/// finite positive number, over one, added to a zero, and rounded.
pub proof fn lemma_plus_is_kept(a: Val, t: Val, z: Val)
    requires
        a.is_plus(),
        t is Fin,
        !t.is_neg(),
        t.mag() > 0,
        z.is_zero(),
    ensures
        a.mul(t).is_plus(),
        a.div(t).is_plus(),
        z.add(a).is_plus(),
        a.round().is_plus(),
{
    reveal(Val::mul);
    reveal(Val::div);
    reveal(Val::add);
    reveal(Val::round);
    if a is Fin && a.mag() > 0 {
        lemma_round_ratio_bounds(a.mag());
    }
}

/// A number of clear sign is below no number of clear sign's negation and
/// below nothing negative; it is zero or above zero.
pub proof fn lemma_plus_order(v: Val, low: Val)
    requires
        v.is_plus(),
        low is Fin,
        low.is_neg(),
    ensures
        !v.lt(Val::zero()),
        !v.lt(low),
        v.gt(Val::zero()) || v == Val::zero(),
        Val::zero().le(v),
{
    reveal(Val::lt);
    reveal(Val::same);
}

/// A rounding that is not zero comes from a number that is not zero.
pub proof fn lemma_round_of_positive(v: Val)
    requires
        v.is_plus(),
    ensures
        v.round() == Val::zero() || v.gt(Val::zero()),
{
    reveal(Val::round);
    reveal(Val::lt);
    if v is Fin && v.mag() == 0 {
        lemma_zero_stays(Val::zero());
    }
}

/// What two canonical bit patterns denote decides them: if they denote the
/// same, they are the same bits.
pub proof fn lemma_canonical_bits(a: Single, b: Single)
    requires
        a@ == b@,
        a.canonical(),
        b.canonical(),
    ensures
        a == b,
{
    if !(a@ is Nan) {
        lemma_view_injective(a, b);
    }
}

/// Rounding keeps a ratio between any two magnitudes of at most 24
/// significant bits that it lies between.
pub proof fn lemma_round_ratio_between(
    num: nat,
    den: nat,
    lo_m: nat,
    lo_e: nat,
    hi_m: nat,
    hi_e: nat,
)
    requires
        den > 0,
        lo_m < 0x100_0000,
        hi_m < 0x100_0000,
        lo_m * pow2(lo_e) * den <= num,
        num <= hi_m * pow2(hi_e) * den,
    ensures
        lo_m * pow2(lo_e) <= round_ratio(num, den) <= hi_m * pow2(hi_e),
{
    reveal(round_ratio);
    let whole = num / den;
    let e = binade(whole);
    let p = pow2(e);
    lemma_pow2_pos(e);
    lemma_pow2_pos(lo_e);
    lemma_pow2_pos(hi_e);
    let step = den * p;
    assert(step > 0) by (nonlinear_arith)
        requires
            step == den * p,
            den > 0,
            p > 0,
    ;
    let q = num / step;
    let r = num % step;
    lemma_fundamental_div_mod(num as int, step as int);
    lemma_mod_bound(num as int, step as int);
    lemma_binade_range(whole);
    lemma_div_denominator(num as int, den as int, p as int);
    assert(q == whole / p);
    let lo = lo_m * pow2(lo_e);
    let hi = hi_m * pow2(hi_e);
    // From below.
    if lo_e >= e {
        let d = (lo_e - e) as nat;
        lemma_pow2_sum(d, e);
        let scaled = lo_m * pow2(d);
        assert(lo == scaled * p && scaled <= q) by (nonlinear_arith)
            requires
                lo == lo_m * pow2(lo_e),
                pow2(lo_e) == pow2(d) * p,
                scaled == lo_m * pow2(d),
                lo * den <= num,
                num == (den * p) * q + r,
                r < den * p,
                den > 0,
                p > 0,
        ;
        assert(lo <= q * p) by (nonlinear_arith)
            requires
                lo == scaled * p,
                scaled <= q,
                p > 0,
        ;
    } else {
        lemma_pow2_monotone(lo_e + 1, e);
        lemma_pow2_double(lo_e);
        assert(lo <= q * p) by (nonlinear_arith)
            requires
                lo == lo_m * pow2(lo_e),
                lo_m < 0x100_0000,
                p >= 2 * pow2(lo_e),
                q >= 0x80_0000,
                pow2(lo_e) > 0,
        ;
    }
    assert(q * p <= (q + 1) * p) by (nonlinear_arith)
        requires
            p > 0,
    ;
    // From above.
    assert(q * p <= hi) by (nonlinear_arith)
        requires
            num == (den * p) * q + r,
            r >= 0,
            num <= hi * den,
            den > 0,
    ;
    if r > 0 {
        if hi_e >= e {
            let d = (hi_e - e) as nat;
            lemma_pow2_sum(d, e);
            let scaled = hi_m * pow2(d);
            assert(hi == scaled * p && scaled >= q + 1) by (nonlinear_arith)
                requires
                    hi == hi_m * pow2(hi_e),
                    pow2(hi_e) == pow2(d) * p,
                    scaled == hi_m * pow2(d),
                    num <= hi * den,
                    num == (den * p) * q + r,
                    r > 0,
                    den > 0,
                    p > 0,
            ;
            assert((q + 1) * p <= hi) by (nonlinear_arith)
                requires
                    hi == scaled * p,
                    scaled >= q + 1,
                    p > 0,
            ;
        } else {
            lemma_pow2_monotone(hi_e + 1, e);
            lemma_pow2_double(hi_e);
            assert(false) by (nonlinear_arith)
                requires
                    hi == hi_m * pow2(hi_e),
                    hi_m < 0x100_0000,
                    p >= 2 * pow2(hi_e),
                    q >= 0x80_0000,
                    q * p <= hi,
                    pow2(hi_e) > 0,
            ;
        }
    }
}

/// How many whole pixels a coordinate is.
pub open spec fn pixels(v: Val) -> int {
    if v.is_neg() {
        -((v.mag() / one()) as int)
    } else {
        (v.mag() / one()) as int
    }
}

/// A coordinate in whole pixels is the number of its pixels.
pub proof fn lemma_pixel_as_int(v: Val)
    requires
        v.is_pixel(),
    ensures
        v == val_of_int(pixels(v)),
        -0x100_0000 < pixels(v) < 0x100_0000,
{
    let k = v.mag() / one();
    lemma_pow2_pos(149);
    lemma_fundamental_div_mod(v.mag() as int, one() as int);
    assert(v.mag() == k * one()) by (nonlinear_arith)
        requires
            v.mag() == one() * k + v.mag() % one(),
            v.mag() % one() == 0,
    ;
    lemma_val_of_small_int(pixels(v));
    if k == 0 {
        assert(0 * one() == 0);
    }
}

/// Whole numbers below 2^24 add, subtract and compare as integers do.
pub proof fn lemma_int_arith(a: int, b: int)
    requires
        -0x100_0000 < a < 0x100_0000,
        -0x100_0000 < b < 0x100_0000,
    ensures
        -0x100_0000 < a + b < 0x100_0000 ==> val_of_int(a).add(val_of_int(b)) == val_of_int(
            a + b,
        ),
        -0x100_0000 < a - b < 0x100_0000 ==> val_of_int(a).sub(val_of_int(b)) == val_of_int(
            a - b,
        ),
        val_of_int(a).lt(val_of_int(b)) == (a < b),
        val_of_int(a).same(val_of_int(b)) == (a == b),
        val_of_int(0) == Val::zero(),
{
    reveal(Val::add);
    reveal(Val::lt);
    reveal(Val::same);
    lemma_val_of_small_int(a);
    lemma_val_of_small_int(b);
    lemma_val_of_small_int(0);
    if -0x100_0000 < a + b < 0x100_0000 {
        lemma_val_of_small_int(a + b);
    }
    if -0x100_0000 < a - b < 0x100_0000 {
        lemma_val_of_small_int(a - b);
    }
    let u = one();
    lemma_pow2_pos(149);
    let ma: nat = (if a < 0 {
        -a
    } else {
        a
    }) as nat;
    let mb: nat = (if b < 0 {
        -b
    } else {
        b
    }) as nat;
    let sa = val_of_int(a).signed();
    let sb = val_of_int(b).signed();
    assert(sa == a * u && sb == b * u) by (nonlinear_arith)
        requires
            sa == (if a < 0 {
                -(ma * u)
            } else {
                (ma * u) as int
            }),
            sb == (if b < 0 {
                -(mb * u)
            } else {
                (mb * u) as int
            }),
            ma == (if a < 0 {
                -a
            } else {
                a
            }),
            mb == (if b < 0 {
                -b
            } else {
                b
            }),
    ;
    assert(sa + sb == (a + b) * u && sa - sb == (a - b) * u) by (nonlinear_arith)
        requires
            sa == a * u,
            sb == b * u,
    ;
    assert((sa < sb) == (a < b) && (sa == sb) == (a == b)) by (nonlinear_arith)
        requires
            sa == a * u,
            sb == b * u,
            u > 0,
    ;
    let sum = a + b;
    let msum: nat = (if sum < 0 {
        -sum
    } else {
        sum
    }) as nat;
    if msum < 0x100_0000 {
        lemma_round_ratio_exact(msum, 149, 1);
    }
    assert(msum * pow2(149) * 1 == msum * u);
    assert((if sum < 0 {
        -(sum * u)
    } else {
        sum * u
    }) == msum * u) by (nonlinear_arith)
        requires
            msum == (if sum < 0 {
                -sum
            } else {
                sum
            }),
    ;
    let diff = a - b;
    let mdiff: nat = (if diff < 0 {
        -diff
    } else {
        diff
    }) as nat;
    if mdiff < 0x100_0000 {
        lemma_round_ratio_exact(mdiff, 149, 1);
    }
    assert(mdiff * pow2(149) * 1 == mdiff * u);
    assert((if diff < 0 {
        -(diff * u)
    } else {
        diff * u
    }) == mdiff * u) by (nonlinear_arith)
        requires
            mdiff == (if diff < 0 {
                -diff
            } else {
                diff
            }),
    ;
    assert(val_of_int(b).neg().signed() == -sb);
    assert(msum < 0x100_0000 ==> msum * u < pow2(277));
    assert(mdiff < 0x100_0000 ==> mdiff * u < pow2(277));
    assert(0 * u == 0);
    let got = val_of_int(a).add(val_of_int(b));
    let total = sa + sb;
    if total == 0 {
        assert(sum == 0) by (nonlinear_arith)
            requires
                total == sum * u,
                total == 0,
                u > 0,
        ;
        assert(got == val_of_int(0));
    } else if !(-0x100_0000 < sum < 0x100_0000) {
    } else if total < 0 {
        assert(sum < 0) by (nonlinear_arith)
            requires
                total == sum * u,
                total < 0,
                u > 0,
        ;
        assert((-total) as nat == msum * u);
        assert(got == settle(true, round_ratio(msum * u, 1)));
    } else {
        assert(sum > 0) by (nonlinear_arith)
            requires
                total == sum * u,
                total > 0,
                u > 0,
        ;
        assert(total as nat == msum * u);
        assert(got == settle(false, round_ratio(msum * u, 1)));
    }
}

/// A whole number below 2^24 is a coordinate of that many pixels.
pub proof fn lemma_int_is_pixel(n: int)
    requires
        -0x100_0000 < n < 0x100_0000,
    ensures
        val_of_int(n).is_pixel(),
        pixels(val_of_int(n)) == n,
        val_of_int(n).round() == val_of_int(n),
{
    lemma_val_of_small_int(n);
    let m: nat = (if n < 0 {
        -n
    } else {
        n
    }) as nat;
    lemma_div_by_multiple(m as int, one() as int);
    lemma_mod_multiples_basic(m as int, one() as int);
    if m == 0 {
        assert(0 * one() == 0);
    } else {
        assert(m * one() > 0) by (nonlinear_arith)
            requires
                m > 0,
                one() > 0,
        ;
    }
    lemma_pixel_is_fixed(val_of_int(n));
}

/// One half is the binary32 number 2^-1, and half of an even whole number is
/// a whole number.
pub proof fn lemma_half_of_even(m: int)
    requires
        -0x80_0000 < m < 0x80_0000,
    ensures
        val_of_ratio(1, 2) == (Val::Fin { neg: false, mag: pow2(148) }),
        val_of_ratio(1, 2).mul(val_of_int(2 * m)) == val_of_int(m),
{
    reveal(Val::div);
    reveal(Val::mul);
    lemma_val_of_small_int(1);
    lemma_val_of_small_int(2);
    lemma_val_of_small_int(m);
    lemma_val_of_small_int(2 * m);
    let u = one();
    let half = pow2(148);
    lemma_pow2_double(148);
    lemma_pow2_pos(148);
    lemma_pow2_strictly_increases(148, 277);
    assert(u == 2 * half);
    assert(1 * u == u);
    lemma_round_ratio_exact(1, 148, 2 * u);
    assert(1 * half * (2 * u) == (1 * u) * u) by (nonlinear_arith)
        requires
            u == 2 * half,
    ;
    assert(1 * half == half);
    let k: nat = (if m < 0 {
        -m
    } else {
        m
    }) as nat;
    lemma_round_ratio_exact(k, 149, u);
    assert(half * ((2 * k) * u) == k * pow2(149) * u) by (nonlinear_arith)
        requires
            u == 2 * half,
            pow2(149) == u,
    ;
    assert((if 2 * m < 0 {
        -(2 * m)
    } else {
        2 * m
    }) == 2 * k);
}

/// The remainder of whole numbers: that of their magnitudes, with the sign of
/// the dividend.
pub proof fn lemma_int_rem(a: int, b: int)
    requires
        -0x100_0000 < a < 0x100_0000,
        1 <= b < 0x100_0000,
    ensures
        a >= 0 ==> val_of_int(a).rem(val_of_int(b)) == val_of_int(a % b),
        a < 0 ==> val_of_int(a).rem(val_of_int(b)) == (Val::Fin {
            neg: true,
            mag: (((-a) % b) * one()) as nat,
        }),
{
    reveal(Val::rem);
    lemma_val_of_small_int(a);
    lemma_val_of_small_int(b);
    let u = one();
    let k: int = if a < 0 {
        -a
    } else {
        a
    };
    lemma_mod_bound(k, b);
    lemma_val_of_small_int(k % b);
    lemma_truncate_middle(k, u as int, b);
    assert(k * u == u * k && b * u == u * b && (k % b) * u == u * (k % b)) by (nonlinear_arith);
    assert(b * u > 0) by (nonlinear_arith)
        requires
            b >= 1,
            u > 0,
    ;
}

} // verus!
