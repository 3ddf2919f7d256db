//! The Head Byte format: a signed decimal number as a header byte, an optional exponent
//! byte and big-endian coefficient bytes.
//!
//! Header byte: bit 7 the sign, bit 6 "an exponent follows" (or, with zero magnitude bits
//! otherwise, infinity), bits 5 to 0 the number of bytes that follow. Exponent byte: bit 7
//! the sign, bits 6 to 0 the magnitude; `0x80`, a negative zero, is illegal.
use vstd::prelude::*;

verus! {

/// The sign of a number.
#[derive(Copy, Clone, Debug, PartialEq, Eq, Structural)]
pub enum Sign {
    Positive,
    Negative,
}

impl From<bool> for Sign {
    /// `true` is negative.
    fn from(op: bool) -> (r: Sign) {
        if op {
            Sign::Negative
        } else {
            Sign::Positive
        }
    }
}

impl vstd::std_specs::convert::FromSpecImpl<bool> for Sign {
    open spec fn obeys_from_spec() -> bool {
        true
    }

    open spec fn from_spec(v: bool) -> Sign {
        if v {
            Sign::Negative
        } else {
            Sign::Positive
        }
    }
}

impl From<Sign> for bool {
    /// Negative is `true`.
    fn from(op: Sign) -> (r: bool) {
        match op {
            Sign::Positive => false,
            Sign::Negative => true,
        }
    }
}

impl vstd::std_specs::convert::FromSpecImpl<Sign> for bool {
    open spec fn obeys_from_spec() -> bool {
        true
    }

    open spec fn from_spec(v: Sign) -> bool {
        v == Sign::Negative
    }
}

/// The sign that a set top bit stands for.
pub open spec fn sign_of(negative: bool) -> Sign {
    if negative {
        Sign::Negative
    } else {
        Sign::Positive
    }
}

/// Facts about the fields of a header byte.
proof fn lemma_header_bits(b: u8, op: u8)
    ensures
        (b & 0x80 != 0) == (b >= 128),
        b & 0x7f == b % 128,
        (b & 0x40 != 0) == ((b / 64) % 2 == 1),
        b & 0x3f == b % 64,
        (b | 0x40) % 64 == b % 64,
        ((b | 0x40) >= 128) == (b >= 128),
        ((b | 0x40) / 64) % 2 == 1,
        (b & 0xbf) % 64 == b % 64,
        ((b & 0xbf) >= 128) == (b >= 128),
        ((b & 0xbf) / 64) % 2 == 0,
        op < 64 ==> (b & 0xc0) | op == b - b % 64 + op,
        op < 64 ==> ((b & 0xc0) | op) % 64 == op,
        op < 64 ==> (((b & 0xc0) | op) >= 128) == (b >= 128),
        op < 64 ==> (((b & 0xc0) | op) / 64) % 2 == (b / 64) % 2,
        (b ^ 0x80) == (if b >= 128 { b - 128 } else { b + 128 }),
{
    assert((b & 0x80 != 0) == (b >= 128)) by (bit_vector);
    assert(b & 0x7f == b % 128) by (bit_vector);
    assert((b & 0x40 != 0) == ((b / 64) % 2 == 1)) by (bit_vector);
    assert(b & 0x3f == b % 64) by (bit_vector);
    assert((b | 0x40) % 64 == b % 64) by (bit_vector);
    assert(((b | 0x40) >= 128) == (b >= 128)) by (bit_vector);
    assert(((b | 0x40) / 64) % 2 == 1) by (bit_vector);
    assert((b & 0xbf) % 64 == b % 64) by (bit_vector);
    assert(((b & 0xbf) >= 128) == (b >= 128)) by (bit_vector);
    assert(((b & 0xbf) / 64) % 2 == 0) by (bit_vector);
    assert(op < 64 ==> (b & 0xc0) | op == b - b % 64 + op) by (bit_vector);
    assert(op < 64 ==> ((b & 0xc0) | op) % 64 == op) by (bit_vector);
    assert(op < 64 ==> (((b & 0xc0) | op) >= 128) == (b >= 128)) by (bit_vector);
    assert(op < 64 ==> (((b & 0xc0) | op) / 64) % 2 == (b / 64) % 2) by (bit_vector);
    assert((b ^ 0x80) == (if b >= 128 { b - 128 } else { b + 128 })) by (bit_vector);
}

/// The header byte of a Head Byte number. Every byte is a valid header.
#[derive(Copy, Clone, Debug, PartialEq, Eq, Structural)]
pub struct HeadByte(pub u8);

impl View for HeadByte {
    type V = u8;

    open spec fn view(&self) -> u8 {
        self.0
    }
}

impl HeadByte {
    pub const SIGN_MASK: u8 = 0x80;

    pub const ABS_MASK: u8 = 0x7f;

    pub const HAS_EXPONENT_MASK: u8 = 0x40;

    pub const NUM_COEFFICIENTS_MASK: u8 = 0x3f;

    pub open spec fn negative(self) -> bool {
        self@ >= 128
    }

    pub open spec fn exponent_flag(self) -> bool {
        (self@ / 64) % 2 == 1
    }

    /// The count of bytes that follow the header.
    pub open spec fn count(self) -> nat {
        (self@ % 64) as nat
    }

    pub open spec fn infinite(self) -> bool {
        self@ % 128 == 64
    }

    pub open spec fn nan(self) -> bool {
        self@ == 128
    }

    /// An exponent byte follows: the flag is set and the header is not an infinity.
    pub open spec fn exponent_follows(self) -> bool {
        self.exponent_flag() && !self.infinite()
    }

    /// The header with its count field replaced by `op`.
    pub open spec fn with_count(self, op: nat) -> u8 {
        (self@ - self@ % 64 + op) as u8
    }

    pub fn zero() -> (r: HeadByte)
        ensures
            r@ == 0,
    {
        HeadByte(0)
    }

    pub fn nan_value() -> (r: HeadByte)
        ensures
            r@ == 0x80,
    {
        HeadByte(0x80)
    }

    pub fn infinity() -> (r: HeadByte)
        ensures
            r@ == 0x40,
    {
        HeadByte(0x40)
    }

    pub fn neg_infinity() -> (r: HeadByte)
        ensures
            r@ == 0xc0,
    {
        HeadByte(0xc0)
    }

    pub fn sign(self) -> (r: Sign)
        ensures
            r == sign_of(self.negative()),
    {
        proof {
            lemma_header_bits(self.0, 0);
        }
        if (self.0 & Self::SIGN_MASK) != 0 {
            Sign::Negative
        } else {
            Sign::Positive
        }
    }

    /// The header with the sign bit cleared.
    pub fn abs(self) -> (r: HeadByte)
        ensures
            r@ == self@ % 128,
    {
        proof {
            lemma_header_bits(self.0, 0);
        }
        HeadByte(self.0 & Self::ABS_MASK)
    }

    /// The raw has-exponent bit, which infinities set too.
    pub fn exponent_bit(self) -> (r: bool)
        ensures
            r == self.exponent_flag(),
    {
        proof {
            lemma_header_bits(self.0, 0);
        }
        (self.0 & Self::HAS_EXPONENT_MASK) != 0
    }

    /// The header with the has-exponent bit set to `op`, the other bits kept.
    pub fn with_exponent_bit(self, op: bool) -> (r: HeadByte)
        ensures
            r.exponent_flag() == op,
            r.negative() == self.negative(),
            r.count() == self.count(),
    {
        proof {
            lemma_header_bits(self.0, 0);
        }
        if op {
            HeadByte(self.0 | Self::HAS_EXPONENT_MASK)
        } else {
            HeadByte(self.0 & 0xbf)
        }
    }

    pub fn set_exponent_bit(&mut self, op: bool)
        ensures
            final(self).exponent_flag() == op,
            final(self).negative() == old(self).negative(),
            final(self).count() == old(self).count(),
    {
        *self = self.with_exponent_bit(op);
    }

    /// Whether the magnitude bits hold the infinity pattern, of either sign.
    pub fn is_infinite(self) -> (r: bool)
        ensures
            r == self.infinite(),
    {
        proof {
            lemma_header_bits(self.0, 0);
        }
        (self.0 & Self::ABS_MASK) == Self::HAS_EXPONENT_MASK
    }

    /// Whether the sign bit is set and all others are clear.
    pub fn is_nan(self) -> (r: bool)
        ensures
            r == self.nan(),
    {
        proof {
            lemma_header_bits(self.0, 0);
        }
        (self.0 & Self::SIGN_MASK) != 0 && (self.0 & Self::ABS_MASK) == 0
    }

    /// Whether an exponent byte follows the header; infinities share the bit but have none.
    pub fn has_exponent(self) -> (r: bool)
        ensures
            r == self.exponent_follows(),
    {
        self.exponent_bit() && !self.is_infinite()
    }

    /// The number of bytes that follow the header.
    pub fn num_bytes(self) -> (r: u8)
        ensures
            r == self.count(),
    {
        proof {
            lemma_header_bits(self.0, 0);
        }
        self.0 & Self::NUM_COEFFICIENTS_MASK
    }

    /// The number of coefficient bytes: the bytes that follow, less the exponent byte if
    /// there is one.
    pub fn num_coefficients(self) -> (r: u8)
        ensures
            r == (if self.exponent_follows() {
                self.count() - 1
            } else {
                self.count() as int
            }),
    {
        proof {
            let b = self.0;
            assert(((b / 64) % 2 == 1 && b % 128 != 64) ==> b % 64 >= 1) by (bit_vector);
        }
        if self.has_exponent() {
            self.num_bytes() - 1
        } else {
            self.num_bytes()
        }
    }

    /// The header with the count of following bytes replaced by `op`, which must fit in
    /// six bits.
    pub fn with_num_bytes(self, op: u8) -> (r: HeadByte)
        requires
            op < 64,
        ensures
            r@ == self.with_count(op as nat),
            r.count() == op,
            r.negative() == self.negative(),
            r.exponent_flag() == self.exponent_flag(),
    {
        proof {
            lemma_header_bits(self.0, op);
        }
        HeadByte((self.0 & 0xc0) | op)
    }

    pub fn set_num_bytes(&mut self, op: u8)
        requires
            op < 64,
        ensures
            final(self)@ == old(self).with_count(op as nat),
            final(self).count() == op,
            final(self).negative() == old(self).negative(),
            final(self).exponent_flag() == old(self).exponent_flag(),
    {
        *self = self.with_num_bytes(op);
    }

    /// The header with the number of coefficient bytes set to `op`: the count of following
    /// bytes becomes `op`, plus one where an exponent follows.
    pub fn with_num_coefficients(self, op: u8) -> (r: HeadByte)
        requires
            op + (if self.exponent_follows() {
                1int
            } else {
                0int
            }) < 64,
        ensures
            r@ == self.with_count(
                op as nat + (if self.exponent_follows() {
                    1nat
                } else {
                    0nat
                }),
            ),
    {
        if self.has_exponent() {
            self.with_num_bytes(op + 1)
        } else {
            self.with_num_bytes(op)
        }
    }

    pub fn set_num_coefficients(&mut self, op: u8)
        requires
            op + (if old(self).exponent_follows() {
                1int
            } else {
                0int
            }) < 64,
        ensures
            final(self)@ == old(self).with_count(
                op as nat + (if old(self).exponent_follows() {
                    1nat
                } else {
                    0nat
                }),
            ),
    {
        *self = self.with_num_coefficients(op);
    }

    pub fn into_inner(self) -> (r: u8)
        ensures
            r == self@,
    {
        self.0
    }

    /// The header of the negated number: the sign flips, except for NaN and zero, which
    /// have no sign.
    pub fn neg(self) -> (r: HeadByte)
        ensures
            r@ == negated_header(self@),
    {
        proof {
            lemma_header_bits(self.0, 0);
        }
        if self.is_nan() || self.0 == 0 {
            self
        } else {
            HeadByte(self.0 ^ Self::SIGN_MASK)
        }
    }
}

/// The header of the negated number: the sign flips, except for NaN and zero.
pub open spec fn negated_header(b: u8) -> u8 {
    if b == 0x80 || b == 0 {
        b
    } else if b >= 128 {
        (b - 128) as u8
    } else {
        (b + 128) as u8
    }
}

impl core::ops::Neg for HeadByte {
    type Output = HeadByte;

    fn neg(self) -> (r: HeadByte) {
        HeadByte::neg(self)
    }
}

impl vstd::std_specs::ops::NegSpecImpl for HeadByte {
    open spec fn obeys_neg_spec() -> bool {
        true
    }

    open spec fn neg_req(self) -> bool {
        true
    }

    open spec fn neg_spec(self) -> HeadByte {
        HeadByte(negated_header(self@))
    }
}

impl From<u8> for HeadByte {
    fn from(op: u8) -> (r: HeadByte) {
        HeadByte(op)
    }
}

impl vstd::std_specs::convert::FromSpecImpl<u8> for HeadByte {
    open spec fn obeys_from_spec() -> bool {
        true
    }

    open spec fn from_spec(v: u8) -> HeadByte {
        HeadByte(v)
    }
}

impl From<HeadByte> for u8 {
    fn from(op: HeadByte) -> (r: u8) {
        op.0
    }
}

impl vstd::std_specs::convert::FromSpecImpl<HeadByte> for u8 {
    open spec fn obeys_from_spec() -> bool {
        true
    }

    open spec fn from_spec(v: HeadByte) -> u8 {
        v@
    }
}

/// The error of the checked exponent constructor, handed the illegal byte `0x80`.
#[derive(Copy, Clone, Debug, Default, PartialEq, Eq, Structural)]
pub struct InvalidExponentError;

/// The exponent byte: a sign bit and a 7-bit magnitude, never `0x80`.
#[derive(Copy, Clone, Debug, PartialEq, Eq)]
pub struct Exponent(u8);

/// The signed exponent that a byte stands for.
pub open spec fn exponent_value(b: u8) -> int {
    if b >= 128 {
        -((b % 128) as int)
    } else {
        b as int
    }
}

/// The byte that stands for a signed exponent of magnitude at most 127; zero is `0x00`.
pub open spec fn exponent_byte(v: int) -> u8 {
    if v < 0 {
        (128 - v) as u8
    } else {
        v as u8
    }
}

impl View for Exponent {
    type V = u8;

    closed spec fn view(&self) -> u8 {
        self.0
    }
}

impl Exponent {
    #[verifier::type_invariant]
    spec fn legal(self) -> bool {
        self.0 != 0x80
    }

    pub const SIGN_MASK: u8 = 0x80;

    pub const ABS_MASK: u8 = 0x7f;

    /// The signed exponent held.
    pub open spec fn value(self) -> int {
        exponent_value(self@)
    }

    /// Wraps a byte without the check; the caller guarantees that it is not `0x80`.
    pub fn from_u8_unchecked(op: u8) -> (r: Exponent)
        requires
            op != 0x80,
        ensures
            r@ == op,
    {
        Exponent(op)
    }

    /// Wraps a byte, refusing the illegal negative zero `0x80`.
    pub fn try_from_u8(op: u8) -> (r: Result<Exponent, InvalidExponentError>)
        ensures
            r is Err <==> op == 0x80,
            r matches Ok(e) ==> e@ == op,
    {
        if op == 0x80 {
            Err(InvalidExponentError)
        } else {
            Ok(Exponent(op))
        }
    }

    /// The exponent of a signed value of magnitude at most 127.
    fn from_value(v: i16) -> (r: Exponent)
        requires
            -127 <= v <= 127,
        ensures
            r.value() == v,
            r@ == exponent_byte(v as int),
    {
        if v < 0 {
            Exponent((128 - v) as u8)
        } else {
            Exponent(v as u8)
        }
    }

    fn signed(self) -> (r: i16)
        ensures
            r == self.value(),
            -127 <= r <= 127,
    {
        if self.0 >= 128 {
            -((self.0 - 128) as i16)
        } else {
            self.0 as i16
        }
    }

    pub fn sign(self) -> (r: Sign)
        ensures
            r == sign_of(self@ >= 128),
    {
        proof {
            lemma_header_bits(self.0, 0);
        }
        if (self.0 & Self::SIGN_MASK) != 0 {
            Sign::Negative
        } else {
            Sign::Positive
        }
    }

    /// The magnitude, as a non-negative exponent.
    pub fn abs(self) -> (r: Exponent)
        ensures
            r@ == self@ % 128,
            r.value() == if self.value() < 0 {
                -self.value()
            } else {
                self.value()
            },
    {
        proof {
            lemma_header_bits(self.0, 0);
        }
        Exponent(self.0 & Self::ABS_MASK)
    }

    /// The exponent of opposite sign; zero stays zero.
    pub fn invert(self) -> (r: Exponent)
        ensures
            r.value() == -self.value(),
    {
        proof {
            use_type_invariant(self);
        }
        Self::from_value(-self.signed())
    }

    /// The exponent of the product of powers of ten: the sum of the two exponents, or
    /// `None` where its magnitude exceeds 127.
    pub fn checked_mul(self, rhs: Exponent) -> (r: Option<Exponent>)
        ensures
            r is Some <==> -127 <= self.value() + rhs.value() <= 127,
            r matches Some(e) ==> e.value() == self.value() + rhs.value(),
    {
        let s = self.signed() + rhs.signed();
        if s < -127 || s > 127 {
            None
        } else {
            Some(Self::from_value(s))
        }
    }

    /// The exponent of the quotient of powers of ten: the difference of the two exponents,
    /// or `None` where its magnitude exceeds 127.
    pub fn checked_div(self, rhs: Exponent) -> (r: Option<Exponent>)
        ensures
            r is Some <==> -127 <= self.value() - rhs.value() <= 127,
            r matches Some(e) ==> e.value() == self.value() - rhs.value(),
    {
        let s = self.signed() - rhs.signed();
        if s < -127 || s > 127 {
            None
        } else {
            Some(Self::from_value(s))
        }
    }

    pub fn into_inner(self) -> (r: u8)
        ensures
            r == self@,
            r != 0x80,
    {
        proof {
            use_type_invariant(self);
        }
        self.0
    }
}

/// A signed decimal number: header, optional exponent and big-endian coefficient bytes.
/// The header's count and exponent bit always match the data held.
#[derive(Debug)]
pub struct HBNum {
    hb: HeadByte,
    exponent: Option<Exponent>,
    coefficients: Vec<u8>,
}

impl Clone for HBNum {
    fn clone(&self) -> (r: HBNum)
        ensures
            r.header() == self.header(),
            r.exponent_part() == self.exponent_part(),
            r.coefficient_bytes() == self.coefficient_bytes(),
    {
        proof {
            use_type_invariant(self);
        }
        HBNum { hb: self.hb, exponent: self.exponent, coefficients: self.coefficient_be_iter() }
    }
}

impl HBNum {
    #[verifier::type_invariant]
    spec fn header_matches(self) -> bool {
        &&& self.hb.count() == self.coefficients@.len() + (if self.exponent is Some {
            1nat
        } else {
            0nat
        })
        &&& self.hb.exponent_flag() == (self.exponent is Some)
    }

    pub closed spec fn header(&self) -> HeadByte {
        self.hb
    }

    pub closed spec fn exponent_part(&self) -> Option<Exponent> {
        self.exponent
    }

    /// The coefficient bytes, most significant first.
    pub closed spec fn coefficient_bytes(&self) -> Seq<u8> {
        self.coefficients@
    }

    /// Builds a number from its parts. The count of following bytes and the exponent bit
    /// of the header are derived from the parts; the sign and the other bits of `hb` stay.
    /// The header counts at most 63 following bytes.
    pub fn from_raw_parts(hb: HeadByte, exponent: Option<Exponent>, coefficients: Vec<u8>) -> (r:
        HBNum)
        requires
            coefficients@.len() + (if exponent is Some {
                1int
            } else {
                0int
            }) <= 63,
        ensures
            r.header().count() == coefficients@.len() + (if exponent is Some {
                1nat
            } else {
                0nat
            }),
            r.header().exponent_flag() == (exponent is Some),
            r.header().negative() == hb.negative(),
            r.exponent_part() == exponent,
            r.coefficient_bytes() == coefficients@,
    {
        let num_coefficients = coefficients.len() as u8;
        let num_bytes = match exponent {
            Some(_) => num_coefficients + 1,
            None => num_coefficients,
        };
        let mut hb = hb;
        hb.set_num_bytes(num_bytes);
        hb.set_exponent_bit(exponent.is_some());
        HBNum { hb, exponent, coefficients }
    }

    pub fn headbyte(&self) -> (r: HeadByte)
        ensures
            r == self.header(),
    {
        self.hb
    }

    pub fn exponent(&self) -> (r: Option<Exponent>)
        ensures
            r == self.exponent_part(),
    {
        self.exponent
    }

    /// The coefficient bytes, least significant first.
    pub fn coefficient_le_iter(&self) -> (r: Vec<u8>)
        ensures
            r@.len() == self.coefficient_bytes().len(),
            forall|i: int|
                0 <= i < r@.len() ==> r@[i] == #[trigger] self.coefficient_bytes()[r@.len() - 1
                    - i],
    {
        let n = self.coefficients.len();
        let mut r: Vec<u8> = Vec::new();
        let mut i: usize = 0;
        while i < n
            invariant
                n == self.coefficients@.len(),
                i <= n,
                r@.len() == i,
                forall|k: int| 0 <= k < i ==> r@[k] == #[trigger] self.coefficients@[n - 1 - k],
            decreases n - i,
        {
            r.push(self.coefficients[n - 1 - i]);
            i += 1;
        }
        r
    }

    /// The coefficient bytes, most significant first, as stored.
    pub fn coefficient_be_iter(&self) -> (r: Vec<u8>)
        ensures
            r@ == self.coefficient_bytes(),
    {
        let mut r: Vec<u8> = Vec::new();
        let mut i: usize = 0;
        while i < self.coefficients.len()
            invariant
                i <= self.coefficients@.len(),
                r@ == self.coefficients@.take(i as int),
            decreases self.coefficients@.len() - i,
        {
            r.push(self.coefficients[i]);
            i += 1;
            assert(r@ =~= self.coefficients@.take(i as int));
        }
        assert(self.coefficients@.take(i as int) =~= self.coefficients@);
        r
    }
}

} // verus!
