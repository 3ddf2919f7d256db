//! Operation traits of the numbers of this crate, and their implementations for `LBNum`.
use crate::division::gcd_of;
use crate::lbnum::{canonicalize, LBNum};
use crate::linkedbyte::LinkedByte;
use crate::multiply::{add_digit_at, lemma_pow128_add};
use crate::value::{
    digits_value, is_canonical, lemma_spell, lemma_value_push_zero, lemma_value_take_step, pow128,
    spell,
};
use vstd::prelude::*;

verus! {

/// Marks the number types of this crate; the operation traits are implemented for them
/// alone.
pub trait Sealed {

}

/// Combined division and remainder.
pub trait DivRem<Rhs>: Sealed + Sized {
    type Quotient;

    type Remainder;

    /// Whether `rhs` may divide: it must not be zero.
    spec fn divisor_ok(rhs: &Rhs) -> bool;

    /// What the quotient and the remainder are.
    spec fn div_rem_post(self, rhs: Rhs, r: (Self::Quotient, Self::Remainder)) -> bool;

    fn div_rem(self, rhs: Rhs) -> (r: (Self::Quotient, Self::Remainder))
        requires
            Self::divisor_ok(&rhs),
        ensures
            Self::div_rem_post(self, rhs, r),
    ;
}

/// Combined division and remainder in place: the quotient replaces the value and the
/// remainder is returned.
pub trait DivRemAssign<Rhs>: Sealed + Sized {
    type Remainder;

    /// Whether `rhs` may divide: it must not be zero.
    spec fn divisor_ok(rhs: &Rhs) -> bool;

    /// What the quotient left in place and the remainder returned are.
    spec fn div_rem_assign_post(before: Self, after: Self, rhs: Rhs, r: Self::Remainder) -> bool;

    fn div_rem_assign(&mut self, rhs: Rhs) -> (r: Self::Remainder)
        requires
            Self::divisor_ok(&rhs),
        ensures
            Self::div_rem_assign_post(*old(self), *final(self), rhs, r),
    ;
}

/// The greatest common divisor.
pub trait Gcd<Rhs>: Sealed + Sized {
    /// What the greatest common divisor is.
    spec fn gcd_post(lhs: Self, rhs: Rhs, r: Self) -> bool;

    fn gcd(lhs: Self, rhs: Rhs) -> (r: Self)
        ensures
            Self::gcd_post(lhs, rhs, r),
    ;
}

/// Addition of `rhs` shifted left by `index` digits.
pub trait AddAt<Rhs>: Sealed + Sized {
    type Output;

    /// What the shifted sum is.
    spec fn add_at_post(self, index: usize, rhs: Rhs, r: Self::Output) -> bool;

    fn add_at(self, index: usize, rhs: Rhs) -> (r: Self::Output)
        requires
            index <= usize::MAX - 20,
        ensures
            Self::add_at_post(self, index, rhs, r),
    ;
}

/// Addition in place of `rhs` shifted left by `index` digits.
pub trait AddAssignAt<Rhs>: Sealed + Sized {
    /// What the value becomes.
    spec fn add_assign_at_post(before: Self, after: Self, index: usize, rhs: Rhs) -> bool;

    fn add_assign_at(&mut self, index: usize, rhs: Rhs)
        requires
            index <= usize::MAX - 20,
        ensures
            Self::add_assign_at_post(*old(self), *final(self), index, rhs),
    ;
}

impl Sealed for LBNum {

}

impl LBNum {
    /// Adds `rhs * 128^index`: each digit of `rhs` is added at its position, the carries
    /// rippling upwards.
    pub fn add_shifted(&mut self, index: usize, rhs: u128)
        requires
            index <= usize::MAX - 20,
        ensures
            final(self).value() == old(self).value() + rhs * pow128(index as nat),
            is_canonical(final(self)@),
    {
        let r = LBNum::from_u128(rhs);
        let rd = r.digits();
        proof {
            lemma_spell(rhs as nat);
            crate::value::lemma_value_bound(rd@);
            lemma_rhs_digits(rhs);
        }
        let mut v = self.take_digits();
        let ghost v0 = digits_value(v@);
        while v.len() < index + 20
            invariant
                digits_value(v@) == v0,
                index <= usize::MAX - 20,
            decreases index + 20 - v@.len(),
        {
            let z = LinkedByte::zero_link();
            proof {
                lemma_value_push_zero(v@, z);
            }
            v.push(z);
        }
        let mut i: usize = 0;
        proof {
            assert(rd@.take(0) =~= Seq::<LinkedByte>::empty());
            assert(digits_value(rd@.take(0)) == 0);
            assert(pow128(index as nat) * 0 == 0) by (nonlinear_arith);
        }
        while i < rd.len()
            invariant
                rd@.len() <= 19,
                i <= rd@.len(),
                index <= usize::MAX - 20,
                v@.len() >= index + 20,
                digits_value(v@) == v0 + pow128(index as nat) * digits_value(rd@.take(i as int)),
            decreases rd@.len() - i,
        {
            let d = rd[i].value();
            let ghost before = digits_value(v@);
            add_digit_at(&mut v, index + i, d);
            proof {
                lemma_value_take_step(rd@, i as int);
                lemma_pow128_add(index as nat, i as nat);
                let p = pow128(index as nat);
                let q = pow128(i as nat);
                let t = digits_value(rd@.take(i as int));
                assert(d * pow128((index + i) as nat) + p * t == p * (t + d * q))
                    by (nonlinear_arith)
                    requires
                        pow128((index + i) as nat) == p * q,
                ;
            }
            i += 1;
        }
        proof {
            assert(rd@.take(i as int) =~= rd@);
            let p = pow128(index as nat);
            assert(p * rhs == rhs * p) by (nonlinear_arith);
        }
        canonicalize(&mut v);
        *self = LBNum::from_digits(v);
    }
}

/// A `u128` needs at most 19 digits of base 128.
proof fn lemma_rhs_digits(n: u128)
    ensures
        spell(n as nat).len() <= 19,
{
    lemma_spell(n as nat);
    if spell(n as nat).len() > 19 {
        crate::value::lemma_canonical_lower_bound(spell(n as nat));
        crate::value::lemma_pow128_monotonic(19, (spell(n as nat).len() - 1) as nat);
        assert(pow128(19) == 10889035741470030830827987437816582766592nat) by {
            reveal_with_fuel(pow128, 20);
        }
    }
}

impl<'a> DivRem<&'a LBNum> for LBNum {
    type Quotient = LBNum;

    type Remainder = LBNum;

    open spec fn divisor_ok(rhs: &&'a LBNum) -> bool {
        rhs.value() > 0
    }

    open spec fn div_rem_post(self, rhs: &'a LBNum, r: (LBNum, LBNum)) -> bool {
        &&& r.0.value() == self.value() / rhs.value()
        &&& r.1.value() == self.value() % rhs.value()
        &&& is_canonical(r.0@)
        &&& is_canonical(r.1@)
    }

    fn div_rem(self, rhs: &'a LBNum) -> (r: (LBNum, LBNum)) {
        LBNum::div_rem(&self, rhs)
    }
}

impl<'a> DivRemAssign<&'a LBNum> for LBNum {
    type Remainder = LBNum;

    open spec fn divisor_ok(rhs: &&'a LBNum) -> bool {
        rhs.value() > 0
    }

    open spec fn div_rem_assign_post(before: LBNum, after: LBNum, rhs: &'a LBNum, r: LBNum) -> bool {
        &&& after.value() == before.value() / rhs.value()
        &&& r.value() == before.value() % rhs.value()
        &&& is_canonical(after@)
        &&& is_canonical(r@)
    }

    fn div_rem_assign(&mut self, rhs: &'a LBNum) -> (r: LBNum) {
        LBNum::div_rem_assign(self, rhs)
    }
}

impl Gcd<LBNum> for LBNum {
    open spec fn gcd_post(lhs: LBNum, rhs: LBNum, r: LBNum) -> bool {
        &&& r.value() == gcd_of(lhs.value(), rhs.value())
        &&& is_canonical(r@)
    }

    fn gcd(lhs: LBNum, rhs: LBNum) -> (r: LBNum) {
        crate::division::gcd(lhs, rhs)
    }
}

impl AddAt<u128> for LBNum {
    type Output = LBNum;

    open spec fn add_at_post(self, index: usize, rhs: u128, r: LBNum) -> bool {
        &&& r.value() == self.value() + rhs * pow128(index as nat)
        &&& is_canonical(r@)
    }

    fn add_at(self, index: usize, rhs: u128) -> (r: LBNum) {
        let mut r = self;
        r.add_shifted(index, rhs);
        r
    }
}

impl AddAssignAt<u128> for LBNum {
    open spec fn add_assign_at_post(before: LBNum, after: LBNum, index: usize, rhs: u128) -> bool {
        &&& after.value() == before.value() + rhs * pow128(index as nat)
        &&& is_canonical(after@)
    }

    fn add_assign_at(&mut self, index: usize, rhs: u128) {
        self.add_shifted(index, rhs);
    }
}

} // verus!
