//! Natural numbers of any size, as far as reading a decimal number needs
//! them: times a small number, divided by a small number, and back to a
//! machine word.
use vstd::arithmetic::div_mod::lemma_fundamental_div_mod;
use vstd::prelude::*;

verus! {

/// The base of the limbs, 2^32.
pub open spec fn base() -> nat {
    0x1_0000_0000
}

/// The base to the power of `i`: the weight of limb `i`.
pub open spec fn weight(i: nat) -> nat
    decreases i,
{
    if i == 0 {
        1
    } else {
        base() * weight((i - 1) as nat)
    }
}

/// The number that the limbs write, the least significant first.
pub open spec fn limbs_value(s: Seq<u32>) -> nat
    decreases s.len(),
{
    if s.len() == 0 {
        0
    } else {
        s[0] as nat + base() * limbs_value(s.skip(1))
    }
}

/// A natural number.
pub struct Big {
    pub limbs: Vec<u32>,
}

impl View for Big {
    type V = nat;

    open spec fn view(&self) -> nat {
        limbs_value(self.limbs@)
    }
}

/// Limbs that are all zero write zero.
pub proof fn lemma_zero_limbs(s: Seq<u32>)
    requires
        forall|i: int| 0 <= i < s.len() ==> s[i] == 0,
    ensures
        limbs_value(s) == 0,
    decreases s.len(),
{
    if s.len() > 0 {
        lemma_zero_limbs(s.skip(1));
    }
}

/// A limb that is not zero makes the number at least 1.
pub proof fn lemma_nonzero_limb(s: Seq<u32>, i: int)
    requires
        0 <= i < s.len(),
        s[i] != 0,
    ensures
        limbs_value(s) >= 1,
    decreases s.len(),
{
    if i > 0 {
        lemma_nonzero_limb(s.skip(1), i - 1);
    }
}

/// No limbs write zero, and the first limb counts once, the others times the
/// base.
pub proof fn lemma_value_unfold(s: Seq<u32>)
    ensures
        s.len() == 0 ==> limbs_value(s) == 0,
        s.len() > 0 ==> limbs_value(s) == s[0] as nat + base() * limbs_value(s.skip(1)),
{
}

/// A limb added at the top adds its weight.
pub proof fn lemma_limb_on_top(s: Seq<u32>, x: u32)
    ensures
        limbs_value(s.push(x)) == limbs_value(s) + x as nat * weight(s.len()),
    decreases s.len(),
{
    let t = s.push(x);
    lemma_value_unfold(t);
    lemma_value_unfold(s);
    if s.len() == 0 {
        assert(t.skip(1) =~= Seq::<u32>::empty());
        lemma_value_unfold(t.skip(1));
        assert(weight(0) == 1);
        assert(x as nat * 1 == x as nat);
    } else {
        lemma_limb_on_top(s.skip(1), x);
        assert(t.skip(1) =~= s.skip(1).push(x));
        let w = weight((s.len() - 1) as nat);
        assert(weight(s.len()) == base() * w);
        assert(base() * (limbs_value(s.skip(1)) + x as nat * w) == base() * limbs_value(s.skip(1))
            + x as nat * (base() * w)) by (nonlinear_arith);
    }
}

impl Big {
    /// The number `v`.
    pub fn from_u32(v: u32) -> (r: Big)
        ensures
            r@ == v,
    {
        let mut limbs: Vec<u32> = Vec::new();
        proof {
            lemma_limb_on_top(limbs@, v);
            lemma_value_unfold(limbs@);
            assert(weight(0) == 1);
            assert(v as nat * 1 == v as nat);
        }
        limbs.push(v);
        Big { limbs }
    }

    /// `self * m + c`.
    pub fn mul_small_add(&self, m: u32, c: u32) -> (r: Big)
        ensures
            r@ == self@ * m + c,
    {
        let n: usize = self.limbs.len();
        let mut out: Vec<u32> = Vec::new();
        let mut carry: u64 = c as u64;
        let mut i: usize = 0;
        proof {
            lemma_value_unfold(out@);
            lemma_value_unfold(self.limbs@.take(0));
            assert(weight(0) == 1);
            assert(carry * 1 == carry);
            assert(0 * m == 0);
        }
        while i < n
            invariant
                n == self.limbs@.len(),
                i <= n,
                out@.len() == i,
                carry <= 0xffff_ffff,
                limbs_value(out@) + carry * weight(i as nat) == limbs_value(
                    self.limbs@.take(i as int),
                ) * m + c,
            decreases n - i,
        {
            let limb: u32 = self.limbs[i];
            assert(limb * m + carry <= 0xffff_ffff * 0xffff_ffff + 0xffff_ffff) by (nonlinear_arith)
                requires
                    limb <= 0xffff_ffff,
                    m <= 0xffff_ffff,
                    carry <= 0xffff_ffff,
            ;
            let t: u64 = limb as u64 * m as u64 + carry;
            let lo: u32 = (t % 0x1_0000_0000) as u32;
            let hi: u64 = t / 0x1_0000_0000;
            proof {
                let w = weight(i as nat);
                let before = limbs_value(self.limbs@.take(i as int));
                lemma_limb_on_top(out@, lo);
                lemma_limb_on_top(self.limbs@.take(i as int), limb);
                assert(self.limbs@.take(i as int).push(limb) =~= self.limbs@.take(i + 1));
                assert(weight((i + 1) as nat) == base() * w);
                assert(limbs_value(out@) + lo as nat * w + hi * (base() * w) == (before + limb
                    as nat * w) * m + c) by (nonlinear_arith)
                    requires
                        limbs_value(out@) + carry * w == before * m + c,
                        t == limb * m + carry,
                        t == lo + hi * base(),
                ;
            }
            out.push(lo);
            carry = hi;
            i = i + 1;
        }
        proof {
            assert(self.limbs@.take(n as int) =~= self.limbs@);
            lemma_limb_on_top(out@, carry as u32);
            assert(0 * weight(n as nat) == 0);
        }
        if carry != 0 {
            out.push(carry as u32);
        }
        Big { limbs: out }
    }

    /// The quotient and the remainder of the division by `d`.
    pub fn div_small(&self, d: u32) -> (r: (Big, u32))
        requires
            d > 0,
        ensures
            self@ == r.0@ * d + r.1,
            r.1 < d,
    {
        let n: usize = self.limbs.len();
        let mut q: Vec<u32> = Vec::new();
        let mut k: usize = 0;
        while k < n
            invariant
                k <= n,
                q@.len() == k,
            decreases n - k,
        {
            q.push(0);
            k = k + 1;
        }
        let mut rem: u64 = 0;
        let mut i: usize = n;
        proof {
            lemma_value_unfold(self.limbs@.skip(n as int));
            lemma_value_unfold(q@.skip(n as int));
            assert(0 * d == 0);
        }
        while i > 0
            invariant
                n == self.limbs@.len(),
                q@.len() == n,
                i <= n,
                d > 0,
                rem < d,
                limbs_value(self.limbs@.skip(i as int)) == limbs_value(q@.skip(i as int)) * d + rem,
            decreases i,
        {
            let limb: u32 = self.limbs[i - 1];
            let cur: u64 = rem * 0x1_0000_0000 + limb as u64;
            let digit: u64 = cur / d as u64;
            let next: u64 = cur % d as u64;
            let ghost q_before = q@;
            proof {
                lemma_fundamental_div_mod(cur as int, d as int);
                assert(digit <= 0xffff_ffff) by (nonlinear_arith)
                    requires
                        cur == d * digit + next,
                        next >= 0,
                        cur < d * 0x1_0000_0000,
                        d > 0,
                ;
            }
            q.set(i - 1, digit as u32);
            proof {
                let a_hi = limbs_value(self.limbs@.skip(i as int));
                let q_hi = limbs_value(q_before.skip(i as int));
                lemma_value_unfold(self.limbs@.skip(i - 1));
                lemma_value_unfold(q@.skip(i - 1));
                assert(self.limbs@.skip(i - 1).skip(1) =~= self.limbs@.skip(i as int));
                assert(q@.skip(i - 1).skip(1) =~= q_before.skip(i as int));
                assert(limb as nat + base() * a_hi == (digit + base() * q_hi) * d + next)
                    by (nonlinear_arith)
                    requires
                        a_hi == q_hi * d + rem,
                        cur == rem * base() + limb,
                        cur == d * digit + next,
                ;
            }
            rem = next;
            i = i - 1;
        }
        proof {
            assert(self.limbs@.skip(0) =~= self.limbs@);
            assert(q@.skip(0) =~= q@);
        }
        (Big { limbs: q }, rem as u32)
    }

    /// The number as a machine word, if it is below 2^62.
    pub fn low_u64(&self) -> (r: Option<u64>)
        ensures
            match r {
                Some(v) => self@ == v && v < 0x4000_0000_0000_0000,
                None => self@ >= 0x4000_0000_0000_0000,
            },
    {
        let n: usize = self.limbs.len();
        let lo: u64 = if n > 0 {
            self.limbs[0] as u64
        } else {
            0
        };
        let hi: u64 = if n > 1 {
            self.limbs[1] as u64
        } else {
            0
        };
        proof {
            lemma_value_unfold(self.limbs@);
            if n > 0 {
                lemma_value_unfold(self.limbs@.skip(1));
            }
            if n > 1 {
                lemma_value_unfold(self.limbs@.skip(1).skip(1));
            }
        }
        let mut i: usize = 2;
        while i < n
            invariant
                n == self.limbs@.len(),
                2 <= i,
                forall|k: int| 2 <= k < i && k < n ==> self.limbs@[k] == 0,
                n > 1 ==> limbs_value(self.limbs@) == self.limbs@[0] as nat + base() * (
                self.limbs@[1] as nat + base() * limbs_value(self.limbs@.skip(1).skip(1))),
            decreases n - i,
        {
            if self.limbs[i] != 0 {
                proof {
                    let rest = self.limbs@.skip(1).skip(1);
                    lemma_nonzero_limb(rest, i - 2);
                    assert(limbs_value(self.limbs@) >= base() * base()) by (nonlinear_arith)
                        requires
                            limbs_value(self.limbs@) == self.limbs@[0] as nat + base() * (
                            self.limbs@[1] as nat + base() * limbs_value(rest)),
                            limbs_value(rest) >= 1,
                            base() >= 1,
                    ;
                }
                return None;
            }
            i = i + 1;
        }
        proof {
            if n > 1 {
                let rest = self.limbs@.skip(1).skip(1);
                assert forall|k: int| 0 <= k < rest.len() implies rest[k] == 0 by {
                    assert(rest[k] == self.limbs@[k + 2]);
                }
                lemma_zero_limbs(rest);
            }
        }
        let v: u64 = lo + hi * 0x1_0000_0000;
        if v < 0x4000_0000_0000_0000 {
            Some(v)
        } else {
            None
        }
    }
}

} // verus!
