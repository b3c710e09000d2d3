//! Reading a decimal number: the grammar of a number in text, and its value
//! rounded once to single precision.
use crate::bignum::{base, limbs_value, weight, Big};
use crate::replay::{all_digits, digits_value};
use crate::single::model::{binade, one, round_ratio, settle, Val};
use crate::single::repr::Single;
use crate::single::rounding::{lemma_binade_range, lemma_jam_scaled, lemma_pow2_double, lemma_pow2_monotone, lemma_pow2_sum, lemma_round_ratio_at, lemma_round_ratio_exact, lemma_round_ratio_same_ratio};
use vstd::arithmetic::div_mod::lemma_fundamental_div_mod;
use vstd::arithmetic::power2::{lemma2_to64, lemma_pow2_pos, pow2};
use vstd::prelude::*;

verus! {

/// Ten to the power of `n`.
pub open spec fn pow10(n: nat) -> nat
    decreases n,
{
    if n == 0 {
        1
    } else {
        10 * pow10((n - 1) as nat)
    }
}

/// The value `d * 10^q`, rounded once: the nearest single-precision number,
/// of two nearest ones the even one, and infinity beyond the finite numbers.
pub open spec fn scaled_val(neg: bool, d: nat, q: int) -> Val {
    if q >= 0 {
        settle(neg, round_ratio(d * pow10(q as nat) * one(), 1))
    } else {
        settle(neg, round_ratio(d * one(), pow10((-q) as nat)))
    }
}

pub proof fn lemma_pow10_positive(n: nat)
    ensures
        pow10(n) >= 1,
    decreases n,
{
    if n > 0 {
        lemma_pow10_positive((n - 1) as nat);
    }
}

pub proof fn lemma_pow10_monotone(a: nat, b: nat)
    requires
        a <= b,
    ensures
        1 <= pow10(a) <= pow10(b),
    decreases b,
{
    lemma_pow10_positive(a);
    if a < b {
        lemma_pow10_monotone(a, (b - 1) as nat);
    }
}

pub proof fn lemma_pow10_sum(a: nat, b: nat)
    ensures
        pow10(a + b) == pow10(a) * pow10(b),
    decreases b,
{
    if b == 0 {
        assert(pow10(a) * 1 == pow10(a));
    } else {
        lemma_pow10_sum(a, (b - 1) as nat);
        assert(pow10(a + b) == 10 * pow10((a + b - 1) as nat));
        assert(10 * (pow10(a) * pow10((b - 1) as nat)) == pow10(a) * (10 * pow10((b - 1) as nat)))
            by (nonlinear_arith);
    }
}

/// Ten to the `k` is at most two to the `4k`.
pub proof fn lemma_pow10_below_pow2(k: nat)
    ensures
        pow10(k) <= pow2(4 * k),
    decreases k,
{
    lemma2_to64();
    if k > 0 {
        lemma_pow10_below_pow2((k - 1) as nat);
        lemma_pow2_sum(4 * (k - 1) as nat, 4);
        assert(10 * pow10((k - 1) as nat) <= pow2(4 * (k - 1) as nat) * 16) by (nonlinear_arith)
            requires
                pow10((k - 1) as nat) <= pow2(4 * (k - 1) as nat),
        ;
    }
}

/// 10^40 lies above 2^132, and 10^46 above 2^151.
pub proof fn lemma_pow10_landmarks()
    ensures
        pow10(40) >= 16 * pow2(128),
        pow10(46) >= 2 * pow2(150),
{
    let p10: nat = 10_000_000_000;
    assert(pow10(10) == p10) by {
        reveal_with_fuel(pow10, 11);
    }
    lemma_pow10_sum(10, 10);
    lemma_pow10_sum(20, 20);
    lemma_pow10_sum(40, 6);
    assert(pow10(6) == 1_000_000) by {
        reveal_with_fuel(pow10, 7);
    }
    lemma2_to64();
    lemma_pow2_sum(64, 64);
    lemma_pow2_sum(128, 22);
    let p20 = pow10(20);
    assert(p20 == 100_000_000_000_000_000_000) by (nonlinear_arith)
        requires
            p20 == p10 * p10,
            p10 == 10_000_000_000,
    ;
    let p40 = pow10(40);
    assert(p40 >= 16 * pow2(128)) by (nonlinear_arith)
        requires
            p40 == p20 * p20,
            p20 == 100_000_000_000_000_000_000,
            pow2(128) == pow2(64) * pow2(64),
            pow2(64) == 0x1_0000_0000_0000_0000,
    ;
    assert(pow10(46) >= 2 * pow2(150)) by (nonlinear_arith)
        requires
            pow10(46) == p40 * 1_000_000,
            p40 >= 16 * pow2(128),
            pow2(150) == pow2(128) * pow2(22),
            pow2(22) == 0x40_0000,
    ;
}

/// A run of `n` digits writes a number below 10^n.
pub proof fn lemma_digits_below_pow10(d: Seq<u8>)
    requires
        all_digits(d),
    ensures
        digits_value(d) < pow10(d.len()),
    decreases d.len(),
{
    if d.len() > 0 {
        lemma_digits_below_pow10(d.drop_last());
    }
}

/// The weight of limb `i` is 2^(32 i), and limbs write a number below the
/// weight of the first limb that they lack.
pub proof fn lemma_limbs_below_weight(s: Seq<u32>)
    ensures
        weight(s.len()) == pow2(32 * s.len()),
        limbs_value(s) < weight(s.len()),
    decreases s.len(),
{
    lemma2_to64();
    if s.len() > 0 {
        lemma_limbs_below_weight(s.skip(1));
        lemma_pow2_sum(32, 32 * (s.len() - 1) as nat);
        let w = weight((s.len() - 1) as nat);
        assert(s[0] as nat + base() * limbs_value(s.skip(1)) < base() * w) by (nonlinear_arith)
            requires
                s[0] < base(),
                limbs_value(s.skip(1)) < w,
        ;
    }
}

/// A count of units of 2^128 or more rounds to one.
pub proof fn lemma_round_stays_huge(n: nat)
    requires
        n >= pow2(277),
    ensures
        round_ratio(n, 1) >= pow2(277),
{
    reveal(round_ratio);
    let e = binade(n);
    let p = pow2(e);
    lemma_binade_range(n);
    lemma_pow2_pos(e);
    lemma2_to64();
    lemma_fundamental_div_mod(n as int, p as int);
    let q = n / p;
    let rest = n % p;
    assert(n / 1 == n);
    assert(1 * p == p);
    if e <= 253 {
        lemma_pow2_monotone(e, 253);
        lemma_pow2_sum(24, 253);
        let big = pow2(253);
        assert(n < 0x100_0000 * big) by (nonlinear_arith)
            requires
                n == p * q + rest,
                rest < p,
                q < 0x100_0000,
                1 <= p <= big,
        ;
    }
    lemma_pow2_monotone(254, e);
    lemma_pow2_sum(23, 254);
    let low = pow2(254);
    assert(q * p >= 0x80_0000 * low && (q + 1) * p >= 0x80_0000 * low) by (nonlinear_arith)
        requires
            q >= 0x80_0000,
            p >= low,
            low >= 1,
    ;
}

/// A number with a decimal exponent of 40 or more is infinite, unless it is
/// zero.
pub proof fn lemma_scaled_overflows(neg: bool, d: nat, q: int)
    requires
        d >= 1,
        q >= 40,
    ensures
        scaled_val(neg, d, q) == (Val::Inf { neg }),
{
    lemma_pow10_monotone(40, q as nat);
    lemma_pow10_landmarks();
    lemma_pow2_sum(128, 149);
    let n = d * pow10(q as nat) * one();
    let tens = pow10(q as nat);
    let u = one();
    let huge = pow2(128);
    lemma_pow2_pos(128);
    lemma_pow2_pos(149);
    assert(d * tens * u >= huge * u) by (nonlinear_arith)
        requires
            d >= 1,
            tens >= huge,
            u >= 1,
    ;
    lemma_round_stays_huge(n);
}

/// A number of `nd` digits whose decimal exponent is `-(nd + 47)` or less is
/// zero.
pub proof fn lemma_scaled_vanishes(neg: bool, d: nat, nd: nat, q: int)
    requires
        d < pow10(nd),
        q <= -(nd + 47),
    ensures
        scaled_val(neg, d, q) == (Val::Fin { neg, mag: 0 }),
{
    let k = (-q) as nat;
    let den = pow10(k);
    let num = d * one();
    lemma_pow10_monotone(nd + 46, k);
    lemma_pow10_sum(nd, 46);
    lemma_pow10_landmarks();
    lemma_pow2_double(149);
    lemma2_to64();
    assert(2 * num < den) by (nonlinear_arith)
        requires
            num == d * one(),
            d < pow10(nd),
            pow10(46) >= 2 * (2 * one()),
            pow10(nd + 46) == pow10(nd) * pow10(46),
            den >= pow10(nd + 46),
            one() >= 1,
    ;
    assert(den * pow2(0) == den);
    assert(num == 0 * (den * pow2(0)) + num);
    lemma_round_ratio_at(num, den, 0, 0, num);
    lemma_pow2_pos(277);
}

/// Zero is zero whatever its exponent.
pub proof fn lemma_scaled_zero(neg: bool, q: int)
    ensures
        scaled_val(neg, 0, q) == (Val::Fin { neg, mag: 0 }),
{
    lemma2_to64();
    lemma_pow2_pos(277);
    if q >= 0 {
        lemma_round_ratio_exact(0, 0, 1);
        assert(0 * pow10(q as nat) * one() == 0) by (nonlinear_arith);
        assert(0 * pow2(0) * 1 == 0);
    } else {
        let den = pow10((-q) as nat);
        lemma_pow10_positive((-q) as nat);
        lemma_round_ratio_exact(0, 0, den);
        assert(0 * one() == 0);
        assert(0 * pow2(0) * den == 0) by (nonlinear_arith);
        assert(0 * pow2(0) == 0);
    }
}

/// The leading 62 bits of a number: `n`, the number of bits `s` cut off below
/// them, and whether any of those was set.
pub fn reduce(big: Big) -> (r: (u64, u128, bool))
    ensures
        r.0 * pow2(r.1 as nat) <= big@ < (r.0 + 1) * pow2(r.1 as nat),
        r.2 == (big@ != r.0 * pow2(r.1 as nat)),
        r.0 < 0x4000_0000_0000_0000,
        r.1 > 0 ==> r.0 >= 0x2000_0000_0000_0000,
        r.1 <= 32 * usize::MAX,
{
    let ghost total = big@;
    let ghost len = big.limbs@.len();
    let ghost lost: nat = 0;
    let count: usize = big.limbs.len();
    let mut cur = big;
    let mut s: u128 = 0;
    let mut sticky = false;
    proof {
        lemma2_to64();
        lemma_limbs_below_weight(cur.limbs@);
        assert(cur@ * 1 + 0 == cur@);
    }
    loop
        invariant
            total == big@,
            len <= usize::MAX,
            total < pow2(32 * len),
            total == cur@ * pow2(s as nat) + lost,
            lost < pow2(s as nat),
            sticky == (lost != 0),
            s > 0 ==> cur@ >= 0x2000_0000_0000_0000,
            s <= 32 * len,
        decreases cur@,
    {
        match cur.low_u64() {
            Some(v) => {
                proof {
                    let p = pow2(s as nat);
                    assert(v * p <= total < (v + 1) * p && (total != v * p) == (lost != 0))
                        by (nonlinear_arith)
                        requires
                            total == v * p + lost,
                            0 <= lost < p,
                    ;
                }
                return (v, s, sticky);
            },
            None => {},
        }
        let (half, r) = cur.div_small(2);
        proof {
            let p = pow2(s as nat);
            lemma_pow2_double(s as nat);
            lemma_pow2_pos(s as nat);
            assert(total == half@ * (2 * p) + (r * p + lost) && r * p + lost < 2 * p && ((r * p
                + lost != 0) == (r != 0 || lost != 0))) by (nonlinear_arith)
                requires
                    total == cur@ * p + lost,
                    cur@ == half@ * 2 + r,
                    r < 2,
                    0 <= lost < p,
            ;
            if s + 1 > 32 * len {
                lemma_pow2_monotone(32 * len, (s + 1) as nat);
                assert(half@ * (2 * p) >= 2 * p) by (nonlinear_arith)
                    requires
                        half@ >= 1,
                        p >= 1,
                ;
            }
            lost = (r * p + lost) as nat;
        }
        cur = half;
        s = s + 1;
        sticky = sticky || r != 0;
    }
}

/// `d * 10^q` rounded once, for an exponent that was cut off where it no
/// longer matters: `q_cut` is `q` itself between `-(nd + 47)` and 40, and
/// beyond either bound if `q` is.
fn convert(neg: bool, big: Big, nd: usize, q_cut: i128, Ghost(q): Ghost<int>) -> (r: Single)
    requires
        big@ < pow10(nd as nat),
        -0x1_0000_0000_0000_0000_0000 < q_cut < 0x1_0000_0000_0000_0000_0000,
        q_cut >= 40 ==> q >= 40,
        q_cut <= -(nd + 47) ==> q <= -(nd + 47),
        -(nd + 47) < q_cut < 40 ==> q == q_cut,
    ensures
        r@ == scaled_val(neg, big@, q),
{
    let ghost d = big@;
    let is_zero = match big.low_u64() {
        Some(v) => v == 0,
        None => false,
    };
    if is_zero {
        proof {
            lemma_scaled_zero(neg, q);
        }
        return Single::zero(neg);
    }
    if q_cut >= 40 {
        proof {
            lemma_scaled_overflows(neg, d, q);
        }
        return Single::infinity(neg);
    }
    if q_cut <= -(nd as i128 + 47) {
        proof {
            lemma_scaled_vanishes(neg, d, nd as nat, q);
        }
        return Single::zero(neg);
    }
    if q_cut >= 0 {
        // Times ten, `q` times; then the leading bits.
        let mut cur = big;
        let mut i: i128 = 0;
        while i < q_cut
            invariant
                0 <= i <= q_cut < 40,
                cur@ == d * pow10(i as nat),
            decreases q_cut - i,
        {
            proof {
                assert(d * pow10(i as nat) * 10 + 0 == d * pow10((i + 1) as nat)) by (nonlinear_arith)
                    requires
                        pow10((i + 1) as nat) == 10 * pow10(i as nat),
                ;
            }
            cur = cur.mul_small_add(10, 0);
            i = i + 1;
        }
        let ghost total = cur@;
        let (n, s, sticky) = reduce(cur);
        proof {
            let ps = pow2(s as nat);
            lemma_pow2_pos(s as nat);
            lemma2_to64();
            lemma_pow2_sum(149, s as nat);
            assert(n * ps <= total < (n + 1) * ps);
            if s == 0 {
                assert(n * 1 == n && (n + 1) * 1 == n + 1);
            }
            lemma_jam_scaled(total, ps, (149 + s) as nat, 0, n as nat, sticky);
            assert(ps * pow2(0) == ps);
            assert((total * one()) * ps == (total * pow2((149 + s) as nat)) * 1) by (nonlinear_arith)
                requires
                    pow2((149 + s) as nat) == one() * ps,
            ;
            lemma_round_ratio_same_ratio(
                total * one(),
                1,
                total * pow2((149 + s) as nat),
                ps,
            );
        }
        Single::round_pack_wide(neg, n, 149 + s as i128, sticky)
    } else {
        // Times 2^a with enough bits `a` to spare; divided by ten, `k` times;
        // then the leading bits.
        let k: i128 = -q_cut;
        let rounds: i128 = k / 4 + 5;
        let mut cur = big;
        let mut j: i128 = 0;
        proof {
            lemma2_to64();
            assert(d * 1 == d);
        }
        while j < rounds
            invariant
                0 <= j <= rounds,
                cur@ == d * pow2((16 * j) as nat),
            decreases rounds - j,
        {
            proof {
                lemma2_to64();
                lemma_pow2_sum((16 * j) as nat, 16);
                assert(d * pow2((16 * j) as nat) * 0x1_0000 + 0 == d * pow2((16 * (j + 1)) as nat))
                    by (nonlinear_arith)
                    requires
                        pow2((16 * (j + 1)) as nat) == pow2((16 * j) as nat) * 0x1_0000,
                ;
            }
            cur = cur.mul_small_add(0x1_0000, 0);
            j = j + 1;
        }
        let a: i128 = 16 * rounds;
        let ghost scaled = cur@;
        let ghost lost: nat = 0;
        let mut inexact = false;
        let mut i: i128 = 0;
        proof {
            assert(cur@ * 1 + 0 == cur@);
        }
        while i < k
            invariant
                0 <= i <= k,
                scaled == cur@ * pow10(i as nat) + lost,
                lost < pow10(i as nat),
                inexact == (lost != 0),
            decreases k - i,
        {
            let (tenth, r) = cur.div_small(10);
            proof {
                let p = pow10(i as nat);
                lemma_pow10_positive(i as nat);
                assert(pow10((i + 1) as nat) == 10 * p);
                assert(scaled == tenth@ * (10 * p) + (r * p + lost) && r * p + lost < 10 * p && ((r
                    * p + lost != 0) == (r != 0 || lost != 0))) by (nonlinear_arith)
                    requires
                        scaled == cur@ * p + lost,
                        cur@ == tenth@ * 10 + r,
                        r < 10,
                        0 <= lost < p,
                ;
                lost = (r * p + lost) as nat;
            }
            cur = tenth;
            inexact = inexact || r != 0;
            i = i + 1;
        }
        let ghost quotient = cur@;
        let (n, s, cut) = reduce(cur);
        let sticky = inexact || cut;
        let x: i128 = 149 + s as i128 - a;
        proof {
            let pa = pow2(a as nat);
            let ps = pow2(s as nat);
            let den = pow10(k as nat);
            let under = quotient - n * ps;
            lemma_pow10_positive(k as nat);
            lemma_pow2_pos(s as nat);
            lemma_pow2_pos(a as nat);
            // The quotient has more than 62 bits, so that `n` has 62.
            lemma_pow10_below_pow2(k as nat);
            lemma_pow2_monotone(4 * k as nat + 64, a as nat);
            lemma_pow2_sum(4 * k as nat, 64);
            assert(quotient >= 0x1_0000_0000_0000_0000) by (nonlinear_arith)
                requires
                    scaled == quotient * den + lost,
                    lost < den,
                    scaled == d * pa,
                    d >= 1,
                    pa >= pow2(4 * k as nat) * 0x1_0000_0000_0000_0000,
                    den <= pow2(4 * k as nat),
                    den >= 1,
            ;
            if s == 0 {
                lemma2_to64();
                assert((n + 1) * 1 == n + 1);
            }
            assert(s > 0);
            let dd = den * ps;
            assert(dd > 0) by (nonlinear_arith)
                requires
                    dd == den * ps,
                    den >= 1,
                    ps >= 1,
            ;
            assert(n * dd <= scaled < (n + 1) * dd && (n * dd != scaled) == (lost != 0 || quotient
                != n * ps)) by (nonlinear_arith)
                requires
                    scaled == quotient * den + lost,
                    0 <= lost < den,
                    n * ps <= quotient < (n + 1) * ps,
                    dd == den * ps,
            ;
            let en: nat = if x >= 0 {
                x as nat
            } else {
                0
            };
            let ed: nat = if x >= 0 {
                0
            } else {
                (-x) as nat
            };
            lemma_jam_scaled(scaled, dd, en, ed, n as nat, sticky);
            lemma_pow2_sum(a as nat, en);
            lemma_pow2_sum(149, s as nat);
            lemma_pow2_sum((149 + s) as nat, ed);
            assert(pa * pow2(en) == one() * ps * pow2(ed));
            lemma_pow2_pos(ed);
            assert(dd * pow2(ed) > 0) by (nonlinear_arith)
                requires
                    dd > 0,
                    pow2(ed) > 0,
            ;
            assert((d * one()) * (dd * pow2(ed)) == (scaled * pow2(en)) * den) by (nonlinear_arith)
                requires
                    scaled == d * pa,
                    dd == den * ps,
                    pa * pow2(en) == one() * ps * pow2(ed),
            ;
            lemma_round_ratio_same_ratio(d * one(), den, scaled * pow2(en), dd * pow2(ed));
        }
        Single::round_pack_wide(neg, n, x, sticky)
    }
}

pub open spec fn is_digit(b: u8) -> bool {
    0x30 <= b <= 0x39
}

/// Where the run of digits ends that begins at `i`.
pub open spec fn digits_end(t: Seq<u8>, i: int) -> int
    decreases t.len() - i,
{
    if 0 <= i < t.len() && is_digit(t[i]) {
        digits_end(t, i + 1)
    } else {
        i
    }
}

/// A decimal number taken apart: its sign, all its digits before the
/// exponent, how many of them follow the point, and its exponent.
pub struct Decimal {
    pub neg: bool,
    pub digits: Seq<u8>,
    pub frac: nat,
    pub exp: int,
}

/// The parts of the decimal number that `t` writes, if it writes one: an
/// optional sign; digits with at most one point among them, at least one
/// digit in all; and optionally `e` or `E`, an optional sign and at least one
/// digit. Nothing may come before or after.
pub open spec fn decimal_of(t: Seq<u8>) -> Option<Decimal> {
    let signed = t.len() > 0 && (t[0] == 0x2b || t[0] == 0x2d);
    let neg = t.len() > 0 && t[0] == 0x2d;
    let a: int = if signed {
        1
    } else {
        0
    };
    let b = digits_end(t, a);
    let c = if b < t.len() && t[b] == 0x2e {
        b + 1
    } else {
        b
    };
    let d = digits_end(t, c);
    let digits = t.subrange(a, b) + t.subrange(c, d);
    if digits.len() == 0 {
        None
    } else if d == t.len() {
        Some(Decimal { neg, digits, frac: (d - c) as nat, exp: 0 })
    } else if t[d] == 0x65 || t[d] == 0x45 {
        let e_signed = d + 1 < t.len() && (t[d + 1] == 0x2b || t[d + 1] == 0x2d);
        let e_neg = d + 1 < t.len() && t[d + 1] == 0x2d;
        let f = if e_signed {
            d + 2
        } else {
            d + 1
        };
        let g = digits_end(t, f);
        if g == f || g != t.len() {
            None
        } else {
            let e = digits_value(t.subrange(f, g)) as int;
            Some(Decimal { neg, digits, frac: (d - c) as nat, exp: if e_neg {
                -e
            } else {
                e
            } })
        }
    } else {
        None
    }
}

/// The single-precision number that `t` writes in decimal, if it writes one:
/// its exact value, rounded once.
pub open spec fn number_of(t: Seq<u8>) -> Option<Val> {
    match decimal_of(t) {
        Some(d) => Some(scaled_val(d.neg, digits_value(d.digits), d.exp - d.frac)),
        None => None,
    }
}

/// The digits from `from` on, taken into `big`: the number that `before` and
/// they write together, and where they end.
fn take_digits(t: &[u8], from: usize, big: Big, Ghost(before): Ghost<Seq<u8>>) -> (r: (
    Big,
    usize,
))
    requires
        from <= t@.len(),
        all_digits(before),
        big@ == digits_value(before),
    ensures
        r.1 == digits_end(t@, from as int),
        from <= r.1 <= t@.len(),
        all_digits(before + t@.subrange(from as int, r.1 as int)),
        r.0@ == digits_value(before + t@.subrange(from as int, r.1 as int)),
{
    let n: usize = t.len();
    let mut big = big;
    let mut i: usize = from;
    proof {
        assert(before + t@.subrange(from as int, from as int) =~= before);
    }
    while i < n && 0x30 <= t[i] && t[i] <= 0x39
        invariant
            n == t@.len(),
            from <= i <= n,
            digits_end(t@, from as int) == digits_end(t@, i as int),
            all_digits(before + t@.subrange(from as int, i as int)),
            big@ == digits_value(before + t@.subrange(from as int, i as int)),
        decreases n - i,
    {
        let c: u8 = t[i];
        proof {
            let old_run = before + t@.subrange(from as int, i as int);
            let new_run = before + t@.subrange(from as int, i + 1);
            assert(new_run.drop_last() =~= old_run);
            assert(new_run.last() == c);
            assert forall|k: int| 0 <= k < new_run.len() implies 0x30 <= #[trigger] new_run[k]
                <= 0x39 by {
                if k < old_run.len() {
                    assert(new_run[k] == old_run[k]);
                }
            }
        }
        big = big.mul_small_add(10, (c - 0x30) as u32);
        i = i + 1;
    }
    (big, i)
}

/// The exponent that the digits from `from` on write, cut off at 10^21, and
/// where they end.
pub fn take_exponent(t: &[u8], from: usize) -> (r: (u128, usize))
    requires
        from <= t@.len(),
    ensures
        r.1 == digits_end(t@, from as int),
        from <= r.1 <= t@.len(),
        r.0 <= 1_000_000_000_000_000_000_000,
        r.0 <= digits_value(t@.subrange(from as int, r.1 as int)),
        r.0 < 1_000_000_000_000_000_000_000 ==> r.0 == digits_value(
            t@.subrange(from as int, r.1 as int),
        ),
{
    let n: usize = t.len();
    let mut e: u128 = 0;
    let mut i: usize = from;
    while i < n && 0x30 <= t[i] && t[i] <= 0x39
        invariant
            n == t@.len(),
            from <= i <= n,
            digits_end(t@, from as int) == digits_end(t@, i as int),
            e <= 1_000_000_000_000_000_000_000,
            e <= digits_value(t@.subrange(from as int, i as int)),
            e < 1_000_000_000_000_000_000_000 ==> e == digits_value(
                t@.subrange(from as int, i as int),
            ),
        decreases n - i,
    {
        let c: u8 = t[i];
        proof {
            let old_run = t@.subrange(from as int, i as int);
            let new_run = t@.subrange(from as int, i + 1);
            assert(new_run.drop_last() =~= old_run);
            assert(new_run.last() == c);
        }
        let next: u128 = e * 10 + (c - 0x30) as u128;
        e = if next > 1_000_000_000_000_000_000_000 {
            1_000_000_000_000_000_000_000
        } else {
            next
        };
        i = i + 1;
    }
    (e, i)
}

/// The single-precision number that `t` writes in decimal.
pub fn parse_decimal(t: &[u8]) -> (r: Option<Single>)
    ensures
        match r {
            Some(v) => number_of(t@) == Some(v@),
            None => number_of(t@) is None,
        },
{
    let n: usize = t.len();
    let signed = n > 0 && (t[0] == 0x2b || t[0] == 0x2d);
    let neg = n > 0 && t[0] == 0x2d;
    let a: usize = if signed {
        1
    } else {
        0
    };
    let (whole, b) = take_digits(t, a, Big::from_u32(0), Ghost(Seq::<u8>::empty()));
    let c: usize = if b < n && t[b] == 0x2e {
        b + 1
    } else {
        b
    };
    let ghost head = Seq::<u8>::empty() + t@.subrange(a as int, b as int);
    proof {
        assert(head =~= t@.subrange(a as int, b as int));
    }
    let (big, d) = take_digits(t, c, whole, Ghost(head));
    let ghost digits = t@.subrange(a as int, b as int) + t@.subrange(c as int, d as int);
    let nd: usize = (b - a) + (d - c);
    if nd == 0 {
        return None;
    }
    let frac: i128 = (d - c) as i128;
    let mut e_cut: i128 = 0;
    let ghost exp: int = 0;
    if d < n {
        if t[d] != 0x65 && t[d] != 0x45 {
            return None;
        }
        let e_signed = n - d > 1 && (t[d + 1] == 0x2b || t[d + 1] == 0x2d);
        let e_neg = n - d > 1 && t[d + 1] == 0x2d;
        let f: usize = if e_signed {
            d + 2
        } else {
            d + 1
        };
        let (e, g) = take_exponent(t, f);
        if g == f || g != n {
            return None;
        }
        proof {
            let ev = digits_value(t@.subrange(f as int, g as int)) as int;
            exp = if e_neg {
                -ev
            } else {
                ev
            };
        }
        e_cut = if e_neg {
            -(e as i128)
        } else {
            e as i128
        };
    }
    proof {
        lemma_digits_below_pow10(digits);
    }
    let v = convert(neg, big, nd, e_cut - frac, Ghost(exp - frac));
    Some(v)
}

} // verus!
