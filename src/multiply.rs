//! Schoolbook multiplication of Linked Bytes numbers.
use crate::lbnum::{ripple_increment, LBNum};
use crate::numref::LBNumRef;
use crate::linkedbyte::LinkedByte;
use crate::value::{
    digits_value, is_canonical, lemma_value_push_zero, lemma_value_take_step, lemma_value_update,
    pow128,
};
use vstd::prelude::*;

verus! {

pub(crate) proof fn lemma_pow128_add(i: nat, j: nat)
    ensures
        pow128(i + j) == pow128(i) * pow128(j),
    decreases j,
{
    if j > 0 {
        lemma_pow128_add(i, (j - 1) as nat);
        assert(pow128((i + j) as nat) == 128 * pow128((i + j - 1) as nat));
        let a = pow128(i);
        let b = pow128((j - 1) as nat);
        assert(128 * (a * b) == a * (128 * b)) by (nonlinear_arith);
    } else {
        assert(pow128(i) * 1 == pow128(i));
    }
}

/// Adds `m * 128^k` to the number spelled by `v`.
pub(crate) fn add_digit_at(v: &mut Vec<LinkedByte>, k: usize, m: u8)
    requires
        k < old(v)@.len(),
        m < 128,
    ensures
        digits_value(final(v)@) == digits_value(old(v)@) + m * pow128(k as nat),
        final(v)@.len() >= old(v)@.len(),
{
    let n = v.len();
    let ad = v[k];
    let (d, carry) = ad.add_with_carry(LinkedByte::from_parts(m, true));
    let ghost p = pow128(k as nat);
    proof {
        lemma_value_update(v@, k as int, d);
        let x = ad.magnitude();
        let y = d.magnitude();
        if carry {
            assert(y * p + 128 * p == x * p + m * p) by (nonlinear_arith)
                requires
                    y + 128 == x + m,
            ;
        } else {
            assert(y * p == x * p + m * p) by (nonlinear_arith)
                requires
                    y == x + m,
            ;
        }
    }
    v.set(k, d);
    if carry {
        assert(pow128((k + 1) as nat) == 128 * p);
        ripple_increment(v, k + 1);
    }
}

/// Adds `x * 128^k` to the number spelled by `v`, for an `x` of at most two digits.
fn add_small_at(v: &mut Vec<LinkedByte>, k: usize, x: u16)
    requires
        k + 1 < old(v)@.len(),
        x < 16384,
    ensures
        digits_value(final(v)@) == digits_value(old(v)@) + x * pow128(k as nat),
        final(v)@.len() >= old(v)@.len(),
{
    let n = v.len();
    let lo = (x % 128) as u8;
    let hi = (x / 128) as u8;
    add_digit_at(v, k, lo);
    add_digit_at(v, k + 1, hi);
    proof {
        let p = pow128(k as nat);
        assert(pow128((k + 1) as nat) == 128 * p);
        assert(lo * p + hi * (128 * p) == x * p) by (nonlinear_arith)
            requires
                x == lo + 128 * hi,
        ;
    }
}

/// The product of the numbers spelled by `a` and `b`: every digit of `a` times every digit
/// of `b`, each partial product added at its offset.
pub(crate) fn mul_digits(a: &[LinkedByte], b: &[LinkedByte]) -> (r: Vec<LinkedByte>)
    requires
        a@.len() + b@.len() + 1 <= usize::MAX,
    ensures
        digits_value(r@) == digits_value(a@) * digits_value(b@),
{
    let la = a.len();
    let lb = b.len();
    let ghost bv = digits_value(b@);
    let mut r: Vec<LinkedByte> = Vec::new();
    while r.len() < la + lb + 1
        invariant
            digits_value(r@) == 0,
            r@.len() <= la + lb + 1,
            la + lb + 1 <= usize::MAX,
        decreases la + lb + 1 - r@.len(),
    {
        let z = LinkedByte::zero_link();
        proof {
            lemma_value_push_zero(r@, z);
        }
        r.push(z);
    }
    proof {
        assert(a@.take(0) =~= Seq::<LinkedByte>::empty());
        assert(digits_value(a@.take(0)) == 0);
        assert(0 * bv == 0);
    }
    let mut i: usize = 0;
    while i < la
        invariant
            la == a@.len(),
            lb == b@.len(),
            bv == digits_value(b@),
            i <= la,
            la + lb + 1 <= usize::MAX,
            r@.len() >= la + lb + 1,
            digits_value(r@) == digits_value(a@.take(i as int)) * bv,
        decreases la - i,
    {
        let ai = a[i].value();
        let ghost pi = pow128(i as nat);
        let ghost base = digits_value(a@.take(i as int)) * bv;
        let mut j: usize = 0;
        proof {
            assert(b@.take(0) =~= Seq::<LinkedByte>::empty());
            assert(digits_value(b@.take(0)) == 0);
            assert(ai * pi * 0 == 0) by (nonlinear_arith);
        }
        while j < lb
            invariant
                la == a@.len(),
                lb == b@.len(),
                i < la,
                j <= lb,
                ai < 128,
                la + lb + 1 <= usize::MAX,
                r@.len() >= la + lb + 1,
                pi == pow128(i as nat),
                digits_value(r@) == base + ai * pi * digits_value(b@.take(j as int)),
            decreases lb - j,
        {
            let bj = b[j].value();
            assert(ai * bj < 16384) by (nonlinear_arith)
                requires
                    ai < 128,
                    bj < 128,
            ;
            let prod: u16 = ai as u16 * bj as u16;
            let ghost before = digits_value(r@);
            add_small_at(&mut r, i + j, prod);
            proof {
                lemma_value_take_step(b@, j as int);
                lemma_pow128_add(i as nat, j as nat);
                let pj = pow128(j as nat);
                let bt = digits_value(b@.take(j as int));
                assert(prod * pow128((i + j) as nat) + ai * pi * bt == ai * pi * (bt + bj * pj))
                    by (nonlinear_arith)
                    requires
                        prod == ai * bj,
                        pow128((i + j) as nat) == pi * pj,
                ;
            }
            j += 1;
        }
        proof {
            assert(b@.take(lb as int) =~= b@);
            lemma_value_take_step(a@, i as int);
            let at = digits_value(a@.take(i as int));
            assert(at * bv + ai * pi * bv == (at + ai * pi) * bv) by (nonlinear_arith);
        }
        i += 1;
    }
    proof {
        assert(a@.take(la as int) =~= a@);
    }
    r
}

impl LBNum {
    /// The product of the two numbers.
    pub fn mul(&self, rhs: &LBNum) -> (r: LBNum)
        requires
            self@.len() + rhs@.len() + 1 <= usize::MAX,
        ensures
            r.value() == self.value() * rhs.value(),
            is_canonical(r@),
    {
        LBNumRef::from_num(self).mul(LBNumRef::from_num(rhs))
    }

    /// Multiplies in place.
    pub fn mul_assign(&mut self, rhs: &LBNum)
        requires
            old(self)@.len() + rhs@.len() + 1 <= usize::MAX,
        ensures
            final(self).value() == old(self).value() * rhs.value(),
            is_canonical(final(self)@),
    {
        *self = self.mul(rhs);
    }
}

} // verus!
