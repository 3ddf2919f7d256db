//! Unsigned numbers of any size in the Linked Bytes format, kept in canonical form.
use crate::linkedbyte::LinkedByte;
use crate::numref::LBNumRef;
use crate::sequence::{copy_digits, InvalidLBSequence, LBSequence};
use crate::value::{
    digits_value, flag, is_canonical, lemma_canonical_longer_is_larger,
    lemma_canonical_lower_bound, lemma_canonical_zero, lemma_digits_cmp_canonical,
    lemma_pow128_monotonic, lemma_value_bound, lemma_value_drop_last_zero, lemma_value_push,
    lemma_value_push_zero, lemma_value_same_magnitudes, lemma_value_take_step,
    lemma_value_update, links_valid, ordering_of, pow128, same_magnitudes,
};
use core::cmp::Ordering;
use vstd::prelude::*;

verus! {

/// A non-negative integer of any size: little-endian base-128 digits in canonical form.
/// Zero is the empty sequence.
#[derive(Debug)]
pub struct LBNum(LBSequence);

/// What became of a decrement at a digit position.
#[derive(Copy, Clone, Debug, PartialEq, Eq, Structural)]
pub enum DecrementResult {
    /// The number was lowered by the weight of the position.
    Done,
    /// The number has no digit at that position.
    NoSuchIndex,
    /// The number is zero: lowering it would wrap below zero.
    EndedWithBorrow,
}

impl View for LBNum {
    type V = Seq<LinkedByte>;

    closed spec fn view(&self) -> Seq<LinkedByte> {
        self.0@
    }
}

/// Drops most-significant zero digits and makes the new top digit an endpoint. The
/// digits below the top stay as they were, so a buffer whose continuation bits were
/// consistent comes out canonical.
pub fn zero_fold(v: &mut Vec<LinkedByte>)
    ensures
        digits_value(final(v)@) == digits_value(old(v)@),
        final(v)@.len() <= old(v)@.len(),
        forall|i: int|
            0 <= i < final(v)@.len() ==> #[trigger] final(v)@[i].magnitude() == old(
                v,
            )@[i].magnitude(),
        forall|i: int| 0 <= i < final(v)@.len() - 1 ==> #[trigger] final(v)@[i] == old(v)@[i],
        final(v)@.len() > 0 ==> final(v)@.last().magnitude() != 0 && !final(v)@.last().linked(),
        links_valid(old(v)@) ==> is_canonical(final(v)@),
{
    let ghost v0 = v@;
    while v.len() > 0 && v[v.len() - 1].value() == 0
        invariant
            digits_value(v@) == digits_value(v0),
            v@.len() <= v0.len(),
            v@ == v0.take(v@.len() as int),
        decreases v@.len(),
    {
        proof {
            lemma_value_drop_last_zero(v@);
        }
        v.pop();
        assert(v@ =~= v0.take(v@.len() as int));
    }
    let n = v.len();
    if n > 0 {
        let ghost v1 = v@;
        let top = v[n - 1].into_end();
        v.set(n - 1, top);
        proof {
            assert(same_magnitudes(v@, v1));
            lemma_value_same_magnitudes(v@, v1);
            assert(v@.last() == top);
            assert forall|i: int| 0 <= i < v@.len() - 1 implies #[trigger] v@[i] == v0[i] by {
                assert(v1[i] == v0[i]);
            }
            if links_valid(v0) {
                assert forall|i: int| 0 <= i < v@.len() - 1 implies #[trigger] v@[i].linked() by {
                    assert(v@[i] == v0[i]);
                }
            }
        }
    }
}

/// Brings a digit buffer to canonical form without changing the number it spells.
pub fn canonicalize(v: &mut Vec<LinkedByte>)
    ensures
        is_canonical(final(v)@),
        digits_value(final(v)@) == digits_value(old(v)@),
        final(v)@.len() <= old(v)@.len(),
{
    zero_fold(v);
    let ghost v1 = v@;
    LBNum::fix_in_place(v);
    proof {
        lemma_value_same_magnitudes(v@, v1);
        if v@.len() > 0 {
            assert(v@.last().magnitude() == v1[v1.len() - 1].magnitude());
        }
    }
}

/// Adds `128^index` to the number spelled by `v`, rippling the carry upwards. Continuation
/// bits are left to the caller.
pub(crate) fn ripple_increment(v: &mut Vec<LinkedByte>, index: usize)
    requires
        index <= old(v)@.len(),
    ensures
        digits_value(final(v)@) == digits_value(old(v)@) + pow128(index as nat),
        final(v)@.len() >= old(v)@.len(),
{
    let ghost target = digits_value(v@) + pow128(index as nat);
    let ghost n0 = v@.len();
    if index == v.len() {
        let z = LinkedByte::zero_link();
        proof {
            lemma_value_push_zero(v@, z);
        }
        v.push(z);
    }
    let one = LinkedByte::from_parts(1, false);
    let mut k: usize = index;
    loop
        invariant_except_break
            index <= k < v@.len(),
            digits_value(v@) + pow128(k as nat) == target,
        invariant
            one.magnitude() == 1,
            v@.len() >= n0,
        ensures
            digits_value(v@) == target,
            v@.len() >= n0,
        decreases v@.len() - k,
    {
        let old_digit = v[k];
        let (d, carry) = old_digit.add_with_carry(one);
        let ghost p = pow128(k as nat);
        proof {
            lemma_value_update(v@, k as int, d);
            let x = old_digit.magnitude();
            let y = d.magnitude();
            if !carry {
                assert(y * p == x * p + p) by (nonlinear_arith)
                    requires
                        y == x + 1,
                ;
            } else {
                assert(x == 127 && y == 0);
                assert(x * p == 127 * p && y * p == 0) by (nonlinear_arith)
                    requires
                        x == 127 && y == 0,
                ;
                assert(digits_value(v@.update(k as int, d)) + 127 * p == digits_value(v@));
            }
        }
        let ghost before = digits_value(v@);
        v.set(k, d);
        if !carry {
            break;
        }
        assert(digits_value(v@) + 127 * p == before);
        assert(pow128((k + 1) as nat) == 128 * p);
        let len = v.len();
        k += 1;
        assert(digits_value(v@) + pow128(k as nat) == target);
        if k == len {
            proof {
                lemma_value_push(v@, one);
            }
            v.push(one);
            break;
        }
    }
}

/// Subtracts `128^index` from the number spelled by `v`, rippling the borrow upwards.
/// Continuation bits are left to the caller.
fn ripple_decrement(v: &mut Vec<LinkedByte>, index: usize)
    requires
        index < old(v)@.len(),
        digits_value(old(v)@) >= pow128(index as nat),
    ensures
        digits_value(final(v)@) + pow128(index as nat) == digits_value(old(v)@),
        final(v)@.len() == old(v)@.len(),
{
    let ghost target = digits_value(v@) - pow128(index as nat);
    let ghost n = v@.len();
    let one = LinkedByte::from_parts(1, false);
    let mut k: usize = index;
    loop
        invariant_except_break
            index <= k <= v@.len(),
            digits_value(v@) == target + pow128(k as nat),
        invariant
            v@.len() == n,
            target >= 0,
            one.magnitude() == 1,
        ensures
            digits_value(v@) == target,
            v@.len() == n,
        decreases n - k,
    {
        proof {
            lemma_value_bound(v@);
        }
        let old_digit = v[k];
        let (d, borrow) = old_digit.sub_with_borrow(one);
        let ghost p = pow128(k as nat);
        proof {
            lemma_value_update(v@, k as int, d);
            let x = old_digit.magnitude();
            let y = d.magnitude();
            if !borrow {
                assert(x * p == y * p + p) by (nonlinear_arith)
                    requires
                        x == y + 1,
                ;
            } else {
                assert(x == 0 && y == 127);
                assert(y * p == 127 * p && x * p == 0) by (nonlinear_arith)
                    requires
                        x == 0 && y == 127,
                ;
                assert(digits_value(v@.update(k as int, d)) == digits_value(v@) + 127 * p);
            }
        }
        let ghost before = digits_value(v@);
        v.set(k, d);
        if !borrow {
            break;
        }
        assert(digits_value(v@) == before + 127 * p);
        assert(pow128((k + 1) as nat) == 128 * p);
        let len = v.len();
        k += 1;
        assert(digits_value(v@) == target + pow128(k as nat));
    }
}

/// Adds the number spelled by `b` to the one spelled by `a`, digit by digit with a carry.
/// Continuation bits are left to the caller.
fn add_digits(a: &mut Vec<LinkedByte>, b: &Vec<LinkedByte>)
    ensures
        digits_value(final(a)@) == digits_value(old(a)@) + digits_value(b@),
{
    let lb = b.len();
    while a.len() < lb
        invariant
            digits_value(a@) == digits_value(old(a)@),
            lb == b@.len(),
        decreases lb - a@.len(),
    {
        let z = LinkedByte::zero_link();
        proof {
            lemma_value_push_zero(a@, z);
        }
        a.push(z);
    }
    let ghost a0 = a@;
    let n = a.len();
    let zero = LinkedByte::zero_end();
    let one = LinkedByte::from_parts(1, false);
    let mut carry = false;
    let mut i: usize = 0;
    while i < n
        invariant
            n == a@.len(),
            n == a0.len(),
            lb == b@.len(),
            lb <= n,
            i <= n,
            zero.magnitude() == 0,
            one.magnitude() == 1,
            forall|k: int| i <= k < n ==> #[trigger] a@[k] == a0[k],
            digits_value(a@) + flag(carry) * pow128(i as nat) == digits_value(a0) + digits_value(
                b@.take(if i < lb { i as int } else { lb as int }),
            ),
        decreases n - i,
    {
        let bd = if i < lb {
            b[i]
        } else {
            zero
        };
        let ad = a[i];
        let (d1, c1) = ad.add_with_carry(bd);
        let (d2, c2) = if carry {
            d1.add_with_carry(one)
        } else {
            (d1, false)
        };
        let ghost p = pow128(i as nat);
        proof {
            lemma_value_update(a@, i as int, d2);
            let x = ad.magnitude();
            let y = bd.magnitude();
            if i < lb {
                lemma_value_take_step(b@, i as int);
            } else {
                assert(y * p == 0) by (nonlinear_arith)
                    requires
                        y == 0,
                ;
            }
            let c = flag(carry);
            let d = d2.magnitude();
            let co = flag(c1 || c2);
            assert(d + 128 * co == x + y + c);
            assert(d * p + co * (128 * p) == x * p + y * p + c * p) by (nonlinear_arith)
                requires
                    d + 128 * co == x + y + c,
            ;
            assert(pow128((i + 1) as nat) == 128 * p);
        }
        a.set(i, d2);
        carry = c1 || c2;
        i += 1;
    }
    assert(b@.take(lb as int) =~= b@);
    if carry {
        proof {
            lemma_value_push(a@, one);
        }
        a.push(one);
    }
}

/// Subtracts the number spelled by `b` from the larger one spelled by `a`, digit by digit
/// with a borrow. Continuation bits are left to the caller.
fn sub_digits(a: &mut Vec<LinkedByte>, b: &Vec<LinkedByte>)
    requires
        old(a)@.len() >= b@.len(),
        digits_value(old(a)@) >= digits_value(b@),
    ensures
        digits_value(final(a)@) + digits_value(b@) == digits_value(old(a)@),
        final(a)@.len() == old(a)@.len(),
{
    let lb = b.len();
    let ghost a0 = a@;
    let n = a.len();
    let zero = LinkedByte::zero_end();
    let one = LinkedByte::from_parts(1, false);
    let mut borrow = false;
    let mut i: usize = 0;
    while i < n
        invariant
            n == a@.len(),
            n == a0.len(),
            lb == b@.len(),
            lb <= n,
            i <= n,
            zero.magnitude() == 0,
            one.magnitude() == 1,
            forall|k: int| i <= k < n ==> #[trigger] a@[k] == a0[k],
            digits_value(a@) + digits_value(b@.take(if i < lb { i as int } else { lb as int }))
                == digits_value(a0) + flag(borrow) * pow128(i as nat),
        decreases n - i,
    {
        let bd = if i < lb {
            b[i]
        } else {
            zero
        };
        let ad = a[i];
        let (d1, b1) = ad.sub_with_borrow(bd);
        let (d2, b2) = if borrow {
            d1.sub_with_borrow(one)
        } else {
            (d1, false)
        };
        let ghost p = pow128(i as nat);
        proof {
            lemma_value_update(a@, i as int, d2);
            let x = ad.magnitude();
            let y = bd.magnitude();
            if i < lb {
                lemma_value_take_step(b@, i as int);
            } else {
                assert(y * p == 0) by (nonlinear_arith)
                    requires
                        y == 0,
                ;
            }
            let c = flag(borrow);
            let d = d2.magnitude();
            let bo = flag(b1 || b2);
            assert(d + y + c == x + 128 * bo);
            assert(d * p + y * p + c * p == x * p + bo * (128 * p)) by (nonlinear_arith)
                requires
                    d + y + c == x + 128 * bo,
            ;
            assert(pow128((i + 1) as nat) == 128 * p);
        }
        a.set(i, d2);
        borrow = b1 || b2;
        i += 1;
    }
    assert(b@.take(lb as int) =~= b@);
    proof {
        lemma_value_bound(a@);
    }
}

impl LBNum {
    /// Every number is kept in canonical form.
    #[verifier::type_invariant]
    spec fn canonical_form(self) -> bool {
        is_canonical(self.0@)
    }

    /// The number held.
    pub open spec fn value(&self) -> nat {
        digits_value(self@)
    }

    /// Wraps digits already in canonical form.
    pub(crate) fn from_digits(v: Vec<LinkedByte>) -> (r: LBNum)
        requires
            is_canonical(v@),
        ensures
            r@ == v@,
    {
        LBNum(LBSequence(v))
    }

    /// Brings the type invariant of a number into a proof.
    pub(crate) fn lemma_canonical(&self)
        ensures
            is_canonical(self@),
    {
        proof {
            use_type_invariant(self);
        }
    }

    /// Moves the digits out, leaving zero behind.
    pub(crate) fn take_digits(&mut self) -> (r: Vec<LinkedByte>)
        ensures
            r@ == old(self)@,
            is_canonical(r@),
    {
        proof {
            use_type_invariant(&*self);
        }
        let mut tmp = LBNum(LBSequence(Vec::new()));
        core::mem::swap(self, &mut tmp);
        proof {
            use_type_invariant(&tmp);
        }
        tmp.0.0
    }

    /// The digits, which are canonical.
    pub(crate) fn digits(&self) -> (r: &Vec<LinkedByte>)
        ensures
            r@ == self@,
            is_canonical(r@),
    {
        proof {
            use_type_invariant(self);
        }
        &self.0.0
    }

    /// Zero, the empty sequence.
    pub fn zero() -> (r: LBNum)
        ensures
            r@ == Seq::<LinkedByte>::empty(),
            r.value() == 0,
    {
        LBNum(LBSequence::empty())
    }

    /// The number of digits.
    pub fn num_bytes(&self) -> (r: usize)
        ensures
            r == self@.len(),
    {
        self.0.0.len()
    }

    pub fn inner(&self) -> (r: &LBSequence)
        ensures
            r@ == self@,
            is_canonical(r@),
    {
        proof {
            use_type_invariant(self);
        }
        &self.0
    }

    pub fn into_inner(self) -> (r: LBSequence)
        ensures
            r@ == self@,
            is_canonical(r@),
    {
        proof {
            use_type_invariant(&self);
        }
        self.0
    }

    /// The digits, least significant first.
    pub fn iter_le(&self) -> (r: Vec<LinkedByte>)
        ensures
            r@ == self@,
    {
        self.0.iter_le()
    }

    /// The digits, most significant first.
    pub fn iter_be(&self) -> (r: Vec<LinkedByte>)
        ensures
            r@.len() == self@.len(),
            forall|i: int| 0 <= i < self@.len() ==> r@[i] == #[trigger] self@[self@.len() - 1 - i],
    {
        self.0.iter_be()
    }

    /// Reads any digit sequence as a number, repairing its form: the magnitudes count,
    /// the continuation bits are set anew and most-significant zero digits dropped.
    pub fn from_sequence(op: LBSequence) -> (r: LBNum)
        ensures
            r.value() == digits_value(op@),
            is_canonical(r@),
    {
        let mut v = op.0;
        canonicalize(&mut v);
        LBNum(LBSequence(v))
    }

    /// Reads a digit sequence that must already be in canonical form.
    pub fn try_from_sequence(op: LBSequence) -> (r: Result<LBNum, InvalidLBSequence>)
        ensures
            r is Ok <==> is_canonical(op@),
            r matches Ok(n) ==> n@ == op@,
    {
        let n = op.0.len();
        if Self::check_slice(op.0.as_slice()) && (n == 0 || op.0[n - 1].value() != 0) {
            Ok(LBNum(op))
        } else {
            Err(InvalidLBSequence)
        }
    }

    /// Whether the continuation bits are consistent: every digit but the last linked, the
    /// last an endpoint.
    pub fn check_slice(op: &[LinkedByte]) -> (r: bool)
        ensures
            r == links_valid(op@),
    {
        let n = op.len();
        if n == 0 {
            return true;
        }
        if op[n - 1].is_linked() {
            return false;
        }
        let mut i: usize = 0;
        while i < n - 1
            invariant
                n == op@.len(),
                n > 0,
                i <= n - 1,
                forall|k: int| 0 <= k < i ==> #[trigger] op@[k].linked(),
            decreases n - 1 - i,
        {
            if op[i].is_end() {
                return false;
            }
            i += 1;
        }
        true
    }

    /// Sets the continuation bits: every digit but the last linked, the last an endpoint.
    /// The magnitudes stay.
    pub fn fix_in_place(op: &mut Vec<LinkedByte>)
        ensures
            links_valid(final(op)@),
            same_magnitudes(final(op)@, old(op)@),
    {
        let ghost v0 = op@;
        let n = op.len();
        let mut i: usize = 0;
        while i < n
            invariant
                n == op@.len(),
                n == v0.len(),
                i <= n,
                forall|k: int| 0 <= k < n ==> #[trigger] op@[k].magnitude() == v0[k].magnitude(),
                forall|k: int| 0 <= k < i ==> #[trigger] op@[k].linked() == (k < n - 1),
            decreases n - i,
        {
            let d = op[i];
            let nd = if i + 1 < n {
                d.into_linked()
            } else {
                d.into_end()
            };
            op.set(i, nd);
            i += 1;
        }
    }

    /// Adds `128^index`, rippling the carry upwards. Refused, with nothing changed, when
    /// `index` lies beyond the position just above the most significant digit.
    pub fn increment_at_index(&mut self, index: usize) -> (r: bool)
        ensures
            r == (index <= old(self)@.len()),
            r ==> final(self).value() == old(self).value() + pow128(index as nat),
            !r ==> final(self)@ == old(self)@,
            is_canonical(final(self)@),
    {
        proof {
            use_type_invariant(&*self);
        }
        if index > self.0.0.len() {
            return false;
        }
        let mut v = self.take_digits();
        ripple_increment(&mut v, index);
        canonicalize(&mut v);
        *self = LBNum(LBSequence(v));
        true
    }

    /// Subtracts `128^index`, rippling the borrow upwards. Zero reports `EndedWithBorrow`
    /// and a position past the most significant digit `NoSuchIndex`; both leave the number
    /// as it was.
    pub fn decrement_at_index(&mut self, index: usize) -> (r: DecrementResult)
        ensures
            old(self)@.len() == 0 ==> r == DecrementResult::EndedWithBorrow,
            old(self)@.len() > 0 && index >= old(self)@.len() ==> r
                == DecrementResult::NoSuchIndex,
            index < old(self)@.len() ==> r == DecrementResult::Done,
            r == DecrementResult::Done ==> final(self).value() + pow128(index as nat) == old(
                self,
            ).value(),
            r != DecrementResult::Done ==> final(self)@ == old(self)@,
            is_canonical(final(self)@),
    {
        proof {
            use_type_invariant(&*self);
        }
        let n = self.0.0.len();
        if n == 0 {
            return DecrementResult::EndedWithBorrow;
        }
        if index >= n {
            return DecrementResult::NoSuchIndex;
        }
        let mut v = self.take_digits();
        proof {
            lemma_canonical_lower_bound(v@);
            lemma_pow128_monotonic(index as nat, (n - 1) as nat);
        }
        ripple_decrement(&mut v, index);
        canonicalize(&mut v);
        *self = LBNum(LBSequence(v));
        DecrementResult::Done
    }

    /// Adds one.
    pub fn increment(&mut self)
        ensures
            final(self).value() == old(self).value() + 1,
            is_canonical(final(self)@),
    {
        self.increment_at_index(0);
    }

    /// Subtracts one from a number that is not zero.
    pub fn decrement(&mut self)
        requires
            old(self).value() > 0,
        ensures
            final(self).value() + 1 == old(self).value(),
            is_canonical(final(self)@),
    {
        proof {
            use_type_invariant(&*self);
            lemma_canonical_zero(self@);
        }
        self.decrement_at_index(0);
    }

    /// Subtracts one unless the number is zero; reports whether it did.
    pub fn checked_decrement(&mut self) -> (r: bool)
        ensures
            r == (old(self).value() > 0),
            r ==> final(self).value() + 1 == old(self).value(),
            !r ==> final(self)@ == old(self)@,
            is_canonical(final(self)@),
    {
        proof {
            use_type_invariant(&*self);
            lemma_canonical_zero(self@);
        }
        match self.decrement_at_index(0) {
            DecrementResult::Done => true,
            _ => false,
        }
    }

    /// Adds `rhs` in place.
    pub fn add_in_place(&mut self, rhs: &LBNum)
        ensures
            final(self).value() == old(self).value() + rhs.value(),
            is_canonical(final(self)@),
    {
        let mut v = self.take_digits();
        add_digits(&mut v, &rhs.0.0);
        canonicalize(&mut v);
        *self = LBNum(LBSequence(v));
    }

    /// The sum of the two numbers.
    pub fn add(self, rhs: &LBNum) -> (r: LBNum)
        ensures
            r.value() == self.value() + rhs.value(),
            is_canonical(r@),
    {
        let mut r = self;
        r.add_in_place(rhs);
        r
    }

    /// Subtracts `rhs` in place; `rhs` must not be the larger.
    pub fn sub_in_place(&mut self, rhs: &LBNum)
        requires
            old(self).value() >= rhs.value(),
        ensures
            final(self).value() + rhs.value() == old(self).value(),
            is_canonical(final(self)@),
    {
        proof {
            use_type_invariant(&*self);
            use_type_invariant(rhs);
            if self@.len() < rhs@.len() {
                lemma_canonical_longer_is_larger(self@, rhs@);
            }
        }
        let mut v = self.take_digits();
        sub_digits(&mut v, &rhs.0.0);
        canonicalize(&mut v);
        *self = LBNum(LBSequence(v));
    }

    /// The difference of the two numbers; `rhs` must not be the larger.
    pub fn sub(self, rhs: &LBNum) -> (r: LBNum)
        requires
            self.value() >= rhs.value(),
        ensures
            r.value() + rhs.value() == self.value(),
            is_canonical(r@),
    {
        let mut r = self;
        r.sub_in_place(rhs);
        r
    }

    /// The difference of the two numbers, or `None` where `rhs` is the larger.
    pub fn checked_sub(self, rhs: &LBNum) -> (r: Option<LBNum>)
        ensures
            r is Some <==> self.value() >= rhs.value(),
            r matches Some(d) ==> d.value() + rhs.value() == self.value() && is_canonical(d@),
    {
        match self.compare(rhs) {
            Ordering::Less => None,
            _ => Some(self.sub(rhs)),
        }
    }

    /// Orders two numbers: the one with more digits is larger, and numbers of equal length
    /// are compared digit by digit from the most significant.
    pub fn compare(&self, rhs: &LBNum) -> (r: Ordering)
        ensures
            r == ordering_of(self.value(), rhs.value()),
    {
        proof {
            use_type_invariant(self);
            use_type_invariant(rhs);
            lemma_digits_cmp_canonical(self@, rhs@);
        }
        LBNumRef::from_num(self).compare(LBNumRef::from_num(rhs))
    }
}

impl Clone for LBNum {
    fn clone(&self) -> (r: LBNum)
        ensures
            r@ == self@,
    {
        proof {
            use_type_invariant(self);
        }
        LBNum(LBSequence(copy_digits(&self.0.0)))
    }
}

} // verus!
