//! Division with remainder and the greatest common divisor of Linked Bytes numbers.
use crate::lbnum::{canonicalize, LBNum};
use crate::linkedbyte::LinkedByte;
use crate::value::{digits_value, is_canonical};
use core::cmp::Ordering;
use vstd::arithmetic::div_mod::lemma_fundamental_div_mod_converse;
use vstd::prelude::*;

verus! {

/// `d` divides `n`: some integer multiple of `d` is `n`.
pub open spec fn divides(d: nat, n: nat) -> bool {
    exists|k: nat| #[trigger] (k * d) == n
}

/// The greatest common divisor by Euclid's rule; `gcd_of(n, 0) == n`.
pub open spec fn gcd_of(a: nat, b: nat) -> nat
    decreases b,
{
    if b == 0 {
        a
    } else {
        gcd_of(b, a % b)
    }
}

/// The value of a digit put in front of a sequence, in the least significant position.
proof fn lemma_value_prepend(d: LinkedByte, s: Seq<LinkedByte>)
    ensures
        digits_value(seq![d] + s) == d.magnitude() + 128 * digits_value(s),
{
    assert((seq![d] + s).skip(1) =~= s);
    assert((seq![d] + s)[0] == d);
}

/// A common divisor of `a` and `b` divides `a % b`, and a divisor of `b` and `a % b`
/// divides `a`.
proof fn lemma_divides_euclid_step(a: nat, b: nat, d: nat)
    requires
        b > 0,
    ensures
        divides(d, a) && divides(d, b) ==> divides(d, a % b),
        divides(d, b) && divides(d, a % b) ==> divides(d, a),
{
    let q = a / b;
    let r = a % b;
    assert(a == q * b + r) by {
        lemma_div_mod_parts(a, b);
    }
    if divides(d, a) && divides(d, b) {
        let x = choose|x: nat| #[trigger] (x * d) == a;
        let y = choose|y: nat| #[trigger] (y * d) == b;
        assert(x * d == q * (y * d) + r);
        assert(q * (y * d) == (q * y) * d) by (nonlinear_arith);
        assert(d > 0) by (nonlinear_arith)
            requires
                y * d == b,
                b > 0,
        ;
        assert(x >= q * y) by (nonlinear_arith)
            requires
                x * d == (q * y) * d + r,
                r >= 0,
                d > 0,
        ;
        let k = (x - q * y) as nat;
        assert(k * d == r) by (nonlinear_arith)
            requires
                x * d == (q * y) * d + r,
                x >= q * y,
                k == x - q * y,
        ;
        assert(divides(d, r));
    }
    if divides(d, b) && divides(d, r) {
        let y = choose|y: nat| #[trigger] (y * d) == b;
        let z = choose|z: nat| #[trigger] (z * d) == r;
        let k = q * y + z;
        assert(k * d == q * (y * d) + z * d) by (nonlinear_arith)
            requires
                k == q * y + z,
        ;
        assert(k * d == a);
    }
}

proof fn lemma_div_mod_parts(a: nat, b: nat)
    requires
        b > 0,
    ensures
        a == (a / b) * b + a % b,
{
    assert(a == (a / b) * b + a % b) by (nonlinear_arith)
        requires
            b > 0,
    ;
}

/// Euclid's number divides both operands, and every common divisor of the operands
/// divides it; where an operand is not zero, it is therefore the largest common divisor.
pub proof fn lemma_gcd_is_greatest_common_divisor(a: nat, b: nat)
    ensures
        divides(gcd_of(a, b), a),
        divides(gcd_of(a, b), b),
        forall|d: nat| divides(d, a) && divides(d, b) ==> #[trigger] divides(d, gcd_of(a, b)),
        a > 0 || b > 0 ==> forall|d: nat|
            divides(d, a) && divides(d, b) ==> d <= #[trigger] gcd_of(a, b),
    decreases b,
{
    if b == 0 {
        assert(1 * a == a);
        assert(0 * a == 0);
    } else {
        lemma_gcd_is_greatest_common_divisor(b, a % b);
        lemma_divides_euclid_step(a, b, gcd_of(a, b));
        assert forall|d: nat| divides(d, a) && divides(d, b) implies #[trigger] divides(
            d,
            gcd_of(a, b),
        ) by {
            lemma_divides_euclid_step(a, b, d);
        }
    }
    if a > 0 || b > 0 {
        let g = gcd_of(a, b);
        assert(g > 0) by {
            if g == 0 {
                let x = choose|x: nat| #[trigger] (x * g) == a;
                let y = choose|y: nat| #[trigger] (y * g) == b;
                assert(x * g == 0 && y * g == 0) by (nonlinear_arith)
                    requires
                        g == 0,
                ;
            }
        }
        assert forall|d: nat| divides(d, a) && divides(d, b) implies d <= #[trigger] gcd_of(
            a,
            b,
        ) by {
            assert(divides(d, g));
            let k = choose|k: nat| #[trigger] (k * d) == g;
            assert(d <= g) by (nonlinear_arith)
                requires
                    k * d == g,
                    g > 0,
            ;
        }
    }
}

impl LBNum {
    /// The number times 128 plus the magnitude of `d`: `d` becomes the least significant
    /// digit.
    fn shift_in(self, d: LinkedByte) -> (r: LBNum)
        ensures
            r.value() == d.magnitude() + 128 * self.value(),
            is_canonical(r@),
    {
        let old_digits = self.digits();
        let mut v: Vec<LinkedByte> = Vec::new();
        v.push(d);
        let mut i: usize = 0;
        while i < old_digits.len()
            invariant
                i <= old_digits@.len(),
                v@ == seq![d] + old_digits@.take(i as int),
            decreases old_digits@.len() - i,
        {
            v.push(old_digits[i]);
            i += 1;
            assert(v@ =~= seq![d] + old_digits@.take(i as int));
        }
        proof {
            assert(old_digits@.take(i as int) =~= old_digits@);
            lemma_value_prepend(d, old_digits@);
        }
        canonicalize(&mut v);
        LBNum::from_digits(v)
    }

    /// Quotient and remainder of the division by a number that is not zero. The quotient
    /// is found one digit at a time, from the most significant, by repeated subtraction.
    pub fn div_rem(&self, rhs: &LBNum) -> (r: (LBNum, LBNum))
        requires
            rhs.value() > 0,
        ensures
            r.0.value() == self.value() / rhs.value(),
            r.1.value() == self.value() % rhs.value(),
            is_canonical(r.0@),
            is_canonical(r.1@),
    {
        let a = self.digits();
        let n = a.len();
        let ghost dv = rhs.value();
        let mut q: Vec<LinkedByte> = Vec::new();
        while q.len() < n
            invariant
                q@.len() <= n,
            decreases n - q@.len(),
        {
            q.push(LinkedByte::zero_link());
        }
        let mut rem = LBNum::zero();
        let mut j = n;
        proof {
            assert(a@.skip(n as int) =~= Seq::<LinkedByte>::empty());
            assert(q@.skip(n as int) =~= Seq::<LinkedByte>::empty());
        }
        while j > 0
            invariant
                j <= n,
                n == a@.len(),
                q@.len() == n,
                dv == rhs.value(),
                dv > 0,
                digits_value(a@.skip(j as int)) == digits_value(q@.skip(j as int)) * dv
                    + rem.value(),
                rem.value() < dv,
            decreases j,
        {
            j -= 1;
            let ghost qhigh = digits_value(q@.skip(j + 1));
            let ghost rprev = rem.value();
            let aj = a[j];
            rem = rem.shift_in(aj);
            let ghost r0 = rem.value();
            let mut count: u8 = 0;
            proof {
                let x = aj.magnitude();
                assert(r0 < 128 * dv) by (nonlinear_arith)
                    requires
                        r0 == x + 128 * rprev,
                        x < 128,
                        rprev < dv,
                ;
                assert(count * dv == 0);
            }
            while !matches!(rem.compare(rhs), Ordering::Less)
                invariant
                    dv == rhs.value(),
                    dv > 0,
                    r0 < 128 * dv,
                    rem.value() + count * dv == r0,
                decreases rem.value(),
            {
                proof {
                    assert((count + 1) * dv <= r0 && count + 1 < 128) by (nonlinear_arith)
                        requires
                            rem.value() >= dv,
                            rem.value() + count * dv == r0,
                            r0 < 128 * dv,
                            dv > 0,
                    ;
                }
                rem.sub_in_place(rhs);
                count += 1;
                assert(rem.value() + count * dv == r0) by (nonlinear_arith)
                    requires
                        rem.value() + dv + (count - 1) * dv == r0,
                ;
            }
            proof {
                assert(count < 128) by (nonlinear_arith)
                    requires
                        rem.value() + count * dv == r0,
                        r0 < 128 * dv,
                        dv > 0,
                ;
            }
            let digit = LinkedByte::from_parts(count, true);
            proof {
                let t = q@.update(j as int, digit);
                assert(t.skip(j as int) =~= seq![digit] + q@.skip(j + 1));
                lemma_value_prepend(digit, q@.skip(j + 1));
                assert(a@.skip(j as int) =~= seq![aj] + a@.skip(j + 1));
                lemma_value_prepend(aj, a@.skip(j + 1));
                let x = aj.magnitude();
                let c = count as nat;
                assert(x + 128 * (qhigh * dv + rprev) == (c + 128 * qhigh) * dv + rem.value())
                    by (nonlinear_arith)
                    requires
                        r0 == x + 128 * rprev,
                        rem.value() + c * dv == r0,
                ;
            }
            q.set(j, digit);
        }
        proof {
            assert(a@.skip(0) =~= a@);
            assert(q@.skip(0) =~= q@);
        }
        let ghost qv = digits_value(q@);
        canonicalize(&mut q);
        proof {
            lemma_fundamental_div_mod_converse(
                self.value() as int,
                dv as int,
                qv as int,
                rem.value() as int,
            );
        }
        rem.lemma_canonical();
        (LBNum::from_digits(q), rem)
    }

    /// The quotient of the division by a number that is not zero.
    pub fn div(&self, rhs: &LBNum) -> (r: LBNum)
        requires
            rhs.value() > 0,
        ensures
            r.value() == self.value() / rhs.value(),
            is_canonical(r@),
    {
        self.div_rem(rhs).0
    }

    /// The remainder of the division by a number that is not zero.
    pub fn rem(&self, rhs: &LBNum) -> (r: LBNum)
        requires
            rhs.value() > 0,
        ensures
            r.value() == self.value() % rhs.value(),
            is_canonical(r@),
    {
        self.div_rem(rhs).1
    }

    /// Divides in place by a number that is not zero and returns the remainder.
    pub fn div_rem_assign(&mut self, rhs: &LBNum) -> (r: LBNum)
        requires
            rhs.value() > 0,
        ensures
            final(self).value() == old(self).value() / rhs.value(),
            r.value() == old(self).value() % rhs.value(),
            is_canonical(final(self)@),
            is_canonical(r@),
    {
        let (q, r) = self.div_rem(rhs);
        *self = q;
        r
    }
}

/// The greatest common divisor, by Euclid's rule on remainders; `gcd(n, 0)` is `n`.
pub fn gcd(lhs: LBNum, rhs: LBNum) -> (r: LBNum)
    ensures
        r.value() == gcd_of(lhs.value(), rhs.value()),
        is_canonical(r@),
{
    let mut a = lhs;
    let mut b = rhs;
    let zero = LBNum::zero();
    while !matches!(b.compare(&zero), Ordering::Equal)
        invariant
            gcd_of(a.value(), b.value()) == gcd_of(lhs.value(), rhs.value()),
            zero.value() == 0,
        decreases b.value(),
    {
        let r = a.rem(&b);
        a = b;
        b = r;
    }
    a.lemma_canonical();
    a
}

} // verus!
