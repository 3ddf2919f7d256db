//! Borrowed, unchecked digit sequences read as numbers.
use crate::lbnum::{canonicalize, LBNum};
use crate::linkedbyte::LinkedByte;
use crate::multiply::mul_digits;
use crate::sequence::InvalidLBSequence;
use crate::value::{digits_cmp, digits_value, is_canonical, links_valid, top_cmp};
use core::cmp::Ordering;
use vstd::prelude::*;

verus! {

/// A number read from borrowed digits, least significant first. Nothing is checked: the
/// continuation bits may be inconsistent and the top digit may be zero.
#[derive(Copy, Clone, Debug)]
pub struct LBNumRef<'a>(pub &'a [LinkedByte]);

impl<'a> View for LBNumRef<'a> {
    type V = Seq<LinkedByte>;

    open spec fn view(&self) -> Seq<LinkedByte> {
        self.0@
    }
}

impl<'a> LBNumRef<'a> {
    pub fn new(op: &'a [LinkedByte]) -> (r: LBNumRef<'a>)
        ensures
            r@ == op@,
    {
        LBNumRef(op)
    }

    /// Borrows the digits of a number.
    pub fn from_num(op: &'a LBNum) -> (r: LBNumRef<'a>)
        ensures
            r@ == op@,
            is_canonical(r@),
    {
        LBNumRef(op.digits().as_slice())
    }

    /// Borrows digits whose continuation bits are consistent.
    pub fn try_from_slice(op: &'a [LinkedByte]) -> (r: Result<LBNumRef<'a>, InvalidLBSequence>)
        ensures
            r is Ok <==> links_valid(op@),
            r matches Ok(n) ==> n@ == op@,
    {
        if LBNum::check_slice(op) {
            Ok(LBNumRef(op))
        } else {
            Err(InvalidLBSequence)
        }
    }

    pub fn inner(self) -> (r: &'a [LinkedByte])
        ensures
            r@ == self@,
    {
        self.0
    }

    /// An owned copy of the number, in canonical form.
    pub fn into_owned(self) -> (r: LBNum)
        ensures
            r.value() == digits_value(self@),
            is_canonical(r@),
    {
        let mut v: Vec<LinkedByte> = Vec::new();
        let mut i: usize = 0;
        while i < self.0.len()
            invariant
                i <= self@.len(),
                v@ == self@.take(i as int),
            decreases self@.len() - i,
        {
            v.push(self.0[i]);
            i += 1;
            assert(v@ =~= self@.take(i as int));
        }
        assert(self@.take(i as int) =~= self@);
        canonicalize(&mut v);
        LBNum::from_digits(v)
    }

    /// Orders the digit sequences: more digits is larger, and sequences of one length are
    /// compared digit by digit from the most significant.
    pub fn compare(self, rhs: LBNumRef) -> (r: Ordering)
        ensures
            r == digits_cmp(self@, rhs@),
    {
        let a = self.0;
        let b = rhs.0;
        let la = a.len();
        let lb = b.len();
        if la < lb {
            return Ordering::Less;
        }
        if la > lb {
            return Ordering::Greater;
        }
        let mut j = la;
        while j > 0
            invariant
                j <= la,
                la == a@.len(),
                la == b@.len(),
                a@ == self@,
                b@ == rhs@,
                top_cmp(a@, b@, la as nat) == top_cmp(a@, b@, j as nat),
            decreases j,
        {
            let x = a[j - 1].value();
            let y = b[j - 1].value();
            if x < y {
                return Ordering::Less;
            }
            if x > y {
                return Ordering::Greater;
            }
            j -= 1;
        }
        Ordering::Equal
    }

    /// The product of the two numbers, in canonical form.
    pub fn mul(self, rhs: LBNumRef) -> (r: LBNum)
        requires
            self@.len() + rhs@.len() + 1 <= usize::MAX,
        ensures
            r.value() == digits_value(self@) * digits_value(rhs@),
            is_canonical(r@),
    {
        let mut v = mul_digits(self.0, rhs.0);
        canonicalize(&mut v);
        LBNum::from_digits(v)
    }
}

} // verus!
