//! Conversions between Linked Bytes numbers and machine integers, equality, and the
//! operator traits.
use crate::lbnum::{canonicalize, LBNum};
use crate::linkedbyte::LinkedByte;
use crate::value::{
    digits_value, is_canonical, lemma_canonical_unique, lemma_pow128_positive, lemma_spell,
    lemma_value_push, lemma_value_split, ordering_of, pow128, spell,
};
use vstd::prelude::*;

verus! {

/// The error of a conversion to a machine integer too narrow for the number.
#[derive(Copy, Clone, Debug, Default, PartialEq, Eq, Structural)]
pub struct TryFromIntError;

impl LBNum {
    /// The canonical spelling of `n`.
    pub fn from_u128(n: u128) -> (r: LBNum)
        ensures
            r.value() == n,
            is_canonical(r@),
            r@ == spell(n as nat),
    {
        let mut v: Vec<LinkedByte> = Vec::new();
        let mut rest = n;
        proof {
            assert(digits_value(v@) == 0);
            assert(pow128(v@.len()) == 1);
            assert(pow128(v@.len()) * rest == rest) by (nonlinear_arith)
                requires
                    pow128(v@.len()) == 1,
            ;
        }
        while rest > 0
            invariant
                digits_value(v@) + pow128(v@.len()) * rest == n,
            decreases rest,
        {
            let d = LinkedByte::from_parts((rest % 128) as u8, true);
            let ghost p = pow128(v@.len());
            proof {
                lemma_value_push(v@, d);
                let q = rest / 128;
                let m = rest % 128;
                assert(p * rest == m * p + (128 * p) * q) by (nonlinear_arith)
                    requires
                        rest == m + 128 * q,
                ;
            }
            v.push(d);
            rest = rest / 128;
        }
        canonicalize(&mut v);
        proof {
            lemma_spell(n as nat);
            lemma_canonical_unique(v@, spell(n as nat));
        }
        LBNum::from_digits(v)
    }

    pub fn from_u64(n: u64) -> (r: LBNum)
        ensures
            r.value() == n,
            is_canonical(r@),
            r@ == spell(n as nat),
    {
        Self::from_u128(n as u128)
    }

    pub fn from_u32(n: u32) -> (r: LBNum)
        ensures
            r.value() == n,
            is_canonical(r@),
            r@ == spell(n as nat),
    {
        Self::from_u128(n as u128)
    }

    pub fn from_u16(n: u16) -> (r: LBNum)
        ensures
            r.value() == n,
            is_canonical(r@),
            r@ == spell(n as nat),
    {
        Self::from_u128(n as u128)
    }

    pub fn from_u8(n: u8) -> (r: LBNum)
        ensures
            r.value() == n,
            is_canonical(r@),
            r@ == spell(n as nat),
    {
        Self::from_u128(n as u128)
    }

    pub fn from_usize(n: usize) -> (r: LBNum)
        ensures
            r.value() == n,
            is_canonical(r@),
            r@ == spell(n as nat),
    {
        Self::from_u128(n as u128)
    }

    /// The number as a `u128`, or an error where it does not fit.
    pub fn try_into_u128(&self) -> (r: Result<u128, TryFromIntError>)
        ensures
            r is Ok <==> self.value() <= u128::MAX,
            r matches Ok(x) ==> x == self.value(),
    {
        let digits = self.digits();
        let ghost s = digits@;
        let mut acc: u128 = 0;
        let mut j = digits.len();
        proof {
            assert(s.skip(j as int) =~= Seq::<LinkedByte>::empty());
        }
        while j > 0
            invariant
                j <= s.len(),
                digits@ == s,
                s == self@,
                acc == digits_value(s.skip(j as int)),
            decreases j,
        {
            j -= 1;
            let d = digits[j].value();
            proof {
                assert(s.skip(j as int).skip(1) =~= s.skip(j + 1));
                assert(s.skip(j as int)[0] == s[j as int]);
            }
            if acc > (u128::MAX - d as u128) / 128 {
                proof {
                    lemma_value_split(s, j as int);
                    let h = digits_value(s.skip(j as int));
                    let p = pow128(j as nat);
                    lemma_pow128_positive(j as nat);
                    assert(h <= p * h) by (nonlinear_arith)
                        requires
                            p >= 1,
                    ;
                }
                return Err(TryFromIntError);
            }
            acc = acc * 128 + d as u128;
        }
        assert(s.skip(0) =~= s);
        Ok(acc)
    }

    pub fn try_into_u64(&self) -> (r: Result<u64, TryFromIntError>)
        ensures
            r is Ok <==> self.value() <= u64::MAX,
            r matches Ok(x) ==> x == self.value(),
    {
        match self.try_into_u128() {
            Ok(x) => if x <= u64::MAX as u128 {
                Ok(x as u64)
            } else {
                Err(TryFromIntError)
            },
            Err(e) => Err(e),
        }
    }

    pub fn try_into_u32(&self) -> (r: Result<u32, TryFromIntError>)
        ensures
            r is Ok <==> self.value() <= u32::MAX,
            r matches Ok(x) ==> x == self.value(),
    {
        match self.try_into_u128() {
            Ok(x) => if x <= u32::MAX as u128 {
                Ok(x as u32)
            } else {
                Err(TryFromIntError)
            },
            Err(e) => Err(e),
        }
    }

    pub fn try_into_u16(&self) -> (r: Result<u16, TryFromIntError>)
        ensures
            r is Ok <==> self.value() <= u16::MAX,
            r matches Ok(x) ==> x == self.value(),
    {
        match self.try_into_u128() {
            Ok(x) => if x <= u16::MAX as u128 {
                Ok(x as u16)
            } else {
                Err(TryFromIntError)
            },
            Err(e) => Err(e),
        }
    }

    pub fn try_into_u8(&self) -> (r: Result<u8, TryFromIntError>)
        ensures
            r is Ok <==> self.value() <= u8::MAX,
            r matches Ok(x) ==> x == self.value(),
    {
        match self.try_into_u128() {
            Ok(x) => if x <= u8::MAX as u128 {
                Ok(x as u8)
            } else {
                Err(TryFromIntError)
            },
            Err(e) => Err(e),
        }
    }

    pub fn try_into_usize(&self) -> (r: Result<usize, TryFromIntError>)
        ensures
            r is Ok <==> self.value() <= usize::MAX,
            r matches Ok(x) ==> x == self.value(),
    {
        match self.try_into_u128() {
            Ok(x) => if x <= usize::MAX as u128 {
                Ok(x as usize)
            } else {
                Err(TryFromIntError)
            },
            Err(e) => Err(e),
        }
    }
}

/// Round trip of machine integers: the digits written for `n` are canonical and read back
/// as `n`, which fits the width it came from.
pub proof fn lemma_integer_round_trip(n: u128)
    ensures
        is_canonical(spell(n as nat)),
        digits_value(spell(n as nat)) == n,
        digits_value(spell(n as nat)) <= u128::MAX,
{
    lemma_spell(n as nat);
}

impl PartialEq for LBNum {
    fn eq(&self, other: &LBNum) -> (r: bool) {
        match self.compare(other) {
            core::cmp::Ordering::Equal => true,
            _ => false,
        }
    }
}

impl vstd::std_specs::cmp::PartialEqSpecImpl for LBNum {
    open spec fn obeys_eq_spec() -> bool {
        true
    }

    open spec fn eq_spec(&self, other: &LBNum) -> bool {
        self.value() == other.value()
    }
}

impl Eq for LBNum {
}

impl PartialOrd for LBNum {
    fn partial_cmp(&self, other: &LBNum) -> (r: Option<core::cmp::Ordering>) {
        Some(self.compare(other))
    }
}

impl vstd::std_specs::cmp::PartialOrdSpecImpl for LBNum {
    open spec fn obeys_partial_cmp_spec() -> bool {
        true
    }

    open spec fn partial_cmp_spec(&self, other: &LBNum) -> Option<core::cmp::Ordering> {
        Some(ordering_of(self.value(), other.value()))
    }
}

impl core::ops::AddAssign<&LBNum> for LBNum {
    fn add_assign(&mut self, rhs: &LBNum)
        ensures
            final(self).value() == old(self).value() + rhs.value(),
            is_canonical(final(self)@),
    {
        self.add_in_place(rhs);
    }
}

impl core::ops::AddAssign<u8> for LBNum {
    fn add_assign(&mut self, rhs: u8)
        ensures
            final(self).value() == old(self).value() + rhs,
            is_canonical(final(self)@),
    {
        self.add_in_place(&LBNum::from_u8(rhs));
    }
}

impl core::ops::AddAssign<u16> for LBNum {
    fn add_assign(&mut self, rhs: u16)
        ensures
            final(self).value() == old(self).value() + rhs,
            is_canonical(final(self)@),
    {
        self.add_in_place(&LBNum::from_u16(rhs));
    }
}

impl core::ops::AddAssign<u32> for LBNum {
    fn add_assign(&mut self, rhs: u32)
        ensures
            final(self).value() == old(self).value() + rhs,
            is_canonical(final(self)@),
    {
        self.add_in_place(&LBNum::from_u32(rhs));
    }
}

impl core::ops::AddAssign<u64> for LBNum {
    fn add_assign(&mut self, rhs: u64)
        ensures
            final(self).value() == old(self).value() + rhs,
            is_canonical(final(self)@),
    {
        self.add_in_place(&LBNum::from_u64(rhs));
    }
}

impl core::ops::AddAssign<u128> for LBNum {
    fn add_assign(&mut self, rhs: u128)
        ensures
            final(self).value() == old(self).value() + rhs,
            is_canonical(final(self)@),
    {
        self.add_in_place(&LBNum::from_u128(rhs));
    }
}

impl core::ops::AddAssign<usize> for LBNum {
    fn add_assign(&mut self, rhs: usize)
        ensures
            final(self).value() == old(self).value() + rhs,
            is_canonical(final(self)@),
    {
        self.add_in_place(&LBNum::from_usize(rhs));
    }
}

} // verus!
