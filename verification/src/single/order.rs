//! Comparisons and the choice of the greater or the lesser of two numbers.
use crate::single::arith::lemma_zero_mag;
use crate::single::facts::lemma_order_needs_numbers;
use crate::single::model::Val;
use crate::single::repr::{Class, Single};
use crate::single::rounding::lemma_mag_order;
use vstd::prelude::*;

verus! {

impl Single {
    /// Whether the bit pattern is not a number.
    pub fn is_nan(self) -> (r: bool)
        ensures
            r == (self@ is Nan),
    {
        let p = self.unpack();
        match p.class {
            Class::Nan => true,
            _ => false,
        }
    }

    /// `self < other`; false as soon as either is not a number.
    pub fn lt(self, other: Single) -> (r: bool)
        ensures
            r == self@.lt(other@),
    {
        reveal(Val::lt);
        let a = self.unpack();
        let b = other.unpack();
        match a.class {
            Class::Nan => false,
            Class::Inf => match b.class {
                Class::Nan => false,
                Class::Inf => a.neg && !b.neg,
                Class::Fin => a.neg,
            },
            Class::Fin => match b.class {
                Class::Nan => false,
                Class::Inf => !b.neg,
                Class::Fin => {
                    proof {
                        lemma_mag_order(a.man as nat, a.exp as nat, b.man as nat, b.exp as nat);
                        lemma_mag_order(b.man as nat, b.exp as nat, a.man as nat, a.exp as nat);
                        lemma_zero_mag(a.man as nat, a.exp as nat);
                        lemma_zero_mag(b.man as nat, b.exp as nat);
                    }
                    if a.neg {
                        if b.neg {
                            b.exp < a.exp || (b.exp == a.exp && b.man < a.man)
                        } else {
                            a.man != 0 || b.man != 0
                        }
                    } else {
                        if b.neg {
                            false
                        } else {
                            a.exp < b.exp || (a.exp == b.exp && a.man < b.man)
                        }
                    }
                },
            },
        }
    }

    /// `self == other` as numbers: the two zeros are equal, and not-a-number
    /// equals nothing.
    pub fn same(self, other: Single) -> (r: bool)
        ensures
            r == self@.same(other@),
    {
        reveal(Val::same);
        let a = self.unpack();
        let b = other.unpack();
        match a.class {
            Class::Nan => false,
            Class::Inf => match b.class {
                Class::Inf => a.neg == b.neg,
                _ => false,
            },
            Class::Fin => match b.class {
                Class::Fin => {
                    proof {
                        lemma_mag_order(a.man as nat, a.exp as nat, b.man as nat, b.exp as nat);
                        lemma_zero_mag(a.man as nat, a.exp as nat);
                        lemma_zero_mag(b.man as nat, b.exp as nat);
                    }
                    if a.man == 0 && b.man == 0 {
                        true
                    } else {
                        a.neg == b.neg && a.exp == b.exp && a.man == b.man
                    }
                },
                _ => false,
            },
        }
    }

    /// `self > other`.
    pub fn gt(self, other: Single) -> (r: bool)
        ensures
            r == self@.gt(other@),
    {
        other.lt(self)
    }

    /// `self <= other`.
    pub fn le(self, other: Single) -> (r: bool)
        ensures
            r == self@.le(other@),
    {
        self.lt(other) || self.same(other)
    }

    /// `self >= other`.
    pub fn ge(self, other: Single) -> (r: bool)
        ensures
            r == self@.ge(other@),
    {
        other.le(self)
    }

    /// The greater of the two, ignoring a not-a-number.
    pub fn max(self, other: Single) -> (r: Single)
        ensures
            r@ == self@.max(other@),
            r.canonical(),
    {
        proof {
            lemma_order_needs_numbers(self@, other@);
        }
        if self.is_nan() {
            if other.is_nan() {
                Single { bits: 0x7fc0_0000 }
            } else {
                other
            }
        } else if self.lt(other) {
            other
        } else {
            self
        }
    }

    /// The lesser of the two, ignoring a not-a-number.
    pub fn min(self, other: Single) -> (r: Single)
        ensures
            r@ == self@.min(other@),
            r.canonical(),
    {
        proof {
            lemma_order_needs_numbers(other@, self@);
        }
        if self.is_nan() {
            if other.is_nan() {
                Single { bits: 0x7fc0_0000 }
            } else {
                other
            }
        } else if other.lt(self) {
            other
        } else {
            self
        }
    }
}

} // verus!
