//! A raw, unchecked buffer of digits.
use crate::linkedbyte::LinkedByte;
use vstd::prelude::*;

verus! {

/// An ordered buffer of digits, least significant first. Nothing is checked: the buffer may
/// hold any pattern of continuation bits.
#[derive(Clone, Debug)]
pub struct LBSequence(pub Vec<LinkedByte>);

/// The error of a strict constructor handed digits that are not in canonical form.
#[derive(Copy, Clone, Debug, Default, PartialEq, Eq, Structural)]
pub struct InvalidLBSequence;

impl View for LBSequence {
    type V = Seq<LinkedByte>;

    open spec fn view(&self) -> Seq<LinkedByte> {
        self.0@
    }
}

impl LBSequence {
    pub fn empty() -> (r: LBSequence)
        ensures
            r@ == Seq::<LinkedByte>::empty(),
    {
        LBSequence(Vec::new())
    }

    pub fn inner(&self) -> (r: &Vec<LinkedByte>)
        ensures
            r@ == self@,
    {
        &self.0
    }

    pub fn inner_mut(&mut self) -> (r: &mut Vec<LinkedByte>)
        ensures
            *r == old(self).0,
            final(self).0 == *final(r),
    {
        &mut self.0
    }

    /// The digit at `index`, if there is one.
    pub fn get(&self, index: usize) -> (r: Option<LinkedByte>)
        ensures
            index < self@.len() ==> r == Some(self@[index as int]),
            index >= self@.len() ==> r is None,
    {
        if index < self.0.len() {
            Some(self.0[index])
        } else {
            None
        }
    }

    /// The digit at `index` for writing, if there is one.
    pub fn get_mut(&mut self, index: usize) -> (r: Option<&mut LinkedByte>)
        ensures
            index < old(self)@.len() ==> (r matches Some(e) && *e == old(self)@[index as int]
                && final(self)@ == old(self)@.update(index as int, *final(e))),
            index >= old(self)@.len() ==> r is None && final(self)@ == old(self)@,
    {
        if index < self.0.len() {
            Some(&mut self.0[index])
        } else {
            None
        }
    }

    pub fn len(&self) -> (r: usize)
        ensures
            r == self@.len(),
    {
        self.0.len()
    }

    pub fn is_empty(&self) -> (r: bool)
        ensures
            r == (self@.len() == 0),
    {
        self.0.len() == 0
    }

    /// The digits, least significant first.
    pub fn iter_le(&self) -> (r: Vec<LinkedByte>)
        ensures
            r@ == self@,
    {
        copy_digits(&self.0)
    }

    /// The digits, most significant first.
    pub fn iter_be(&self) -> (r: Vec<LinkedByte>)
        ensures
            r@.len() == self@.len(),
            forall|i: int| 0 <= i < self@.len() ==> r@[i] == #[trigger] self@[self@.len() - 1 - i],
    {
        let n = self.0.len();
        let mut r: Vec<LinkedByte> = Vec::new();
        let mut i: usize = 0;
        while i < n
            invariant
                n == self@.len(),
                i <= n,
                r@.len() == i,
                forall|k: int| 0 <= k < i ==> r@[k] == #[trigger] self@[n - 1 - k],
            decreases n - i,
        {
            r.push(self.0[n - 1 - i]);
            i += 1;
        }
        r
    }
}

/// A copy of a digit buffer.
pub fn copy_digits(v: &Vec<LinkedByte>) -> (r: Vec<LinkedByte>)
    ensures
        r@ == v@,
{
    let mut r: Vec<LinkedByte> = Vec::new();
    let mut i: usize = 0;
    while i < v.len()
        invariant
            i <= v@.len(),
            r@ == v@.take(i as int),
        decreases v@.len() - i,
    {
        r.push(v[i]);
        i += 1;
        assert(r@ =~= v@.take(i as int));
    }
    assert(r@ =~= v@);
    r
}

impl From<Vec<LinkedByte>> for LBSequence {
    fn from(op: Vec<LinkedByte>) -> (r: LBSequence) {
        LBSequence(op)
    }
}

impl vstd::std_specs::convert::FromSpecImpl<Vec<LinkedByte>> for LBSequence {
    open spec fn obeys_from_spec() -> bool {
        true
    }

    open spec fn from_spec(v: Vec<LinkedByte>) -> LBSequence {
        LBSequence(v)
    }
}

} // verus!
