use vstd::prelude::*;

verus! {

/// One digit of the Linked Bytes format: a 7-bit magnitude in the low bits and a
/// continuation ("link") flag in the top bit. A linked digit says that more digits follow.
/// Every byte is a valid digit, so the raw byte is public.
#[derive(Copy, Clone, PartialEq, Eq, Structural, Debug)]
pub struct LinkedByte(pub u8);

impl View for LinkedByte {
    type V = u8;

    /// The raw byte, continuation bit included.
    open spec fn view(&self) -> u8 {
        self.0
    }
}

/// Facts about the two halves of a byte that the digit operations rely on.
proof fn lemma_byte_parts(x: u8)
    ensures
        x & 0x7f == x % 128,
        (x & 0x80 != 0) == (x >= 128),
        (x & 0x80 == 0) == (x < 128),
        (x | 0x80) == (if x >= 128 { x } else { (x + 128) as u8 }),
{
    assert(x & 0x7f == x % 128) by (bit_vector);
    assert((x & 0x80 != 0) == (x >= 128)) by (bit_vector);
    assert((x & 0x80 == 0) == (x < 128)) by (bit_vector);
    assert((x | 0x80) == (if x >= 128 { x } else { (x + 128) as u8 })) by (bit_vector);
}

impl LinkedByte {
    /// The continuation bit.
    pub const LINK_MASK: u8 = 0x80;

    /// The bits that hold the magnitude.
    pub const VALUE_MASK: u8 = 0x7f;

    /// The smallest magnitude of a digit.
    pub const MIN: u8 = 0;

    /// The largest magnitude of a digit.
    pub const MAX: u8 = 127;

    /// The magnitude held by the digit, 0 to 127.
    pub open spec fn magnitude(self) -> nat {
        (self@ % 128) as nat
    }

    /// Whether the continuation bit is set.
    pub open spec fn linked(self) -> bool {
        self@ >= 128
    }

    /// Two digits with the same magnitude and flag are the same digit.
    pub proof fn lemma_parts_determine(a: LinkedByte, b: LinkedByte)
        requires
            a.magnitude() == b.magnitude(),
            a.linked() == b.linked(),
        ensures
            a == b,
    {
        assert(a@ == b@);
    }

    /// Builds a digit from a magnitude below 128 and a continuation flag.
    pub fn from_parts(magnitude: u8, linked: bool) -> (r: LinkedByte)
        requires
            magnitude < 128,
        ensures
            r.magnitude() == magnitude as nat,
            r.linked() == linked,
    {
        proof {
            lemma_byte_parts(magnitude);
        }
        if linked {
            LinkedByte(magnitude | Self::LINK_MASK)
        } else {
            LinkedByte(magnitude)
        }
    }

    /// The endpoint digit of magnitude zero.
    pub fn zero_end() -> (r: LinkedByte)
        ensures
            r.magnitude() == 0,
            !r.linked(),
    {
        LinkedByte(0)
    }

    /// The linked digit of magnitude zero.
    pub fn zero_link() -> (r: LinkedByte)
        ensures
            r.magnitude() == 0,
            r.linked(),
    {
        LinkedByte(0x80)
    }

    pub fn is_linked(self) -> (r: bool)
        ensures
            r == self.linked(),
    {
        proof {
            lemma_byte_parts(self.0);
        }
        (self.0 & Self::LINK_MASK) != 0
    }

    pub fn is_end(self) -> (r: bool)
        ensures
            r == !self.linked(),
    {
        proof {
            lemma_byte_parts(self.0);
        }
        (self.0 & Self::LINK_MASK) == 0
    }

    /// The magnitude, without the continuation bit.
    pub fn value(self) -> (r: u8)
        ensures
            r as nat == self.magnitude(),
            r < 128,
    {
        proof {
            lemma_byte_parts(self.0);
        }
        self.0 & Self::VALUE_MASK
    }

    /// The same magnitude with the continuation bit set.
    pub fn into_linked(self) -> (r: LinkedByte)
        ensures
            r.magnitude() == self.magnitude(),
            r.linked(),
    {
        proof {
            lemma_byte_parts(self.0);
        }
        LinkedByte(self.0 | Self::LINK_MASK)
    }

    pub fn make_linked(&mut self)
        ensures
            final(self).magnitude() == old(self).magnitude(),
            final(self).linked(),
    {
        *self = self.into_linked();
    }

    /// The same magnitude with the continuation bit cleared.
    pub fn into_end(self) -> (r: LinkedByte)
        ensures
            r.magnitude() == self.magnitude(),
            !r.linked(),
    {
        proof {
            lemma_byte_parts(self.0);
        }
        LinkedByte(self.0 & Self::VALUE_MASK)
    }

    pub fn make_end(&mut self)
        ensures
            final(self).magnitude() == old(self).magnitude(),
            !final(self).linked(),
    {
        *self = self.into_end();
    }

    /// Adds the magnitudes, keeping the continuation flag of `self`; `None` when the sum
    /// does not fit in seven bits.
    pub fn checked_add(self, rhs: LinkedByte) -> (r: Option<LinkedByte>)
        ensures
            r is Some <==> self.magnitude() + rhs.magnitude() <= 127,
            r matches Some(v) ==> v.magnitude() == self.magnitude() + rhs.magnitude() && v.linked()
                == self.linked(),
    {
        let sum = self.value() + rhs.value();
        if sum > Self::MAX {
            None
        } else {
            Some(Self::from_parts(sum, self.is_linked()))
        }
    }

    /// Adds the magnitudes modulo 128, keeping the continuation flag of `self`, and
    /// reports whether the sum overflowed seven bits.
    pub fn add_with_carry(self, rhs: LinkedByte) -> (r: (LinkedByte, bool))
        ensures
            r.1 == (self.magnitude() + rhs.magnitude() > 127),
            r.0.magnitude() + (if r.1 { 128nat } else { 0nat }) == self.magnitude()
                + rhs.magnitude(),
            r.0.linked() == self.linked(),
    {
        let sum = self.value() + rhs.value();
        if sum > Self::MAX {
            (Self::from_parts(sum - 128, self.is_linked()), true)
        } else {
            (Self::from_parts(sum, self.is_linked()), false)
        }
    }

    /// Subtracts the magnitudes, keeping the continuation flag of `self`; `None` when
    /// `rhs` is the larger.
    pub fn checked_sub(self, rhs: LinkedByte) -> (r: Option<LinkedByte>)
        ensures
            r is Some <==> rhs.magnitude() <= self.magnitude(),
            r matches Some(v) ==> v.magnitude() == self.magnitude() - rhs.magnitude()
                && v.linked() == self.linked(),
    {
        let (a, b) = (self.value(), rhs.value());
        if b > a {
            None
        } else {
            Some(Self::from_parts(a - b, self.is_linked()))
        }
    }

    /// Subtracts the magnitudes modulo 128, keeping the continuation flag of `self`, and
    /// reports whether a borrow was needed.
    pub fn sub_with_borrow(self, rhs: LinkedByte) -> (r: (LinkedByte, bool))
        ensures
            r.1 == (self.magnitude() < rhs.magnitude()),
            r.0.magnitude() + rhs.magnitude() == self.magnitude() + (if r.1 {
                128nat
            } else {
                0nat
            }),
            r.0.linked() == self.linked(),
    {
        let (a, b) = (self.value(), rhs.value());
        if b > a {
            (Self::from_parts(a + 128 - b, self.is_linked()), true)
        } else {
            (Self::from_parts(a - b, self.is_linked()), false)
        }
    }

    /// The raw byte.
    pub fn into_inner(self) -> (r: u8)
        ensures
            r == self@,
    {
        self.0
    }

    /// The magnitude as a 7-bit integer.
    pub fn into_int7(self) -> (r: u8)
        ensures
            r as nat == self.magnitude(),
    {
        self.value()
    }
}

impl From<u8> for LinkedByte {
    /// An endpoint digit holding the low seven bits of `op`.
    fn from(op: u8) -> (r: LinkedByte) {
        proof {
            lemma_byte_parts(op);
        }
        LinkedByte(op & Self::VALUE_MASK)
    }
}

impl vstd::std_specs::convert::FromSpecImpl<u8> for LinkedByte {
    open spec fn obeys_from_spec() -> bool {
        true
    }

    open spec fn from_spec(v: u8) -> LinkedByte {
        LinkedByte(v % 128)
    }
}

impl From<(u8, bool)> for LinkedByte {
    /// A digit holding the low seven bits of the number, linked when the flag is set.
    fn from(op: (u8, bool)) -> (r: LinkedByte) {
        proof {
            lemma_byte_parts(op.0);
        }
        LinkedByte::from_parts(op.0 & Self::VALUE_MASK, op.1)
    }
}

impl vstd::std_specs::convert::FromSpecImpl<(u8, bool)> for LinkedByte {
    open spec fn obeys_from_spec() -> bool {
        true
    }

    open spec fn from_spec(v: (u8, bool)) -> LinkedByte {
        LinkedByte(
            (v.0 % 128 + if v.1 {
                128nat
            } else {
                0nat
            }) as u8,
        )
    }
}

impl From<LinkedByte> for u8 {
    fn from(op: LinkedByte) -> (r: u8) {
        op.0
    }
}

impl vstd::std_specs::convert::FromSpecImpl<LinkedByte> for u8 {
    open spec fn obeys_from_spec() -> bool {
        true
    }

    open spec fn from_spec(v: LinkedByte) -> u8 {
        v@
    }
}

} // verus!
