//! Unicode text stored as Linked Bytes: each codepoint is the canonical digit run of its
//! number, and the endpoint bit marks where a run ends.
use crate::lbnum::LBNum;
use crate::linkedbyte::LinkedByte;
use crate::radix::push_char;
use crate::sequence::{copy_digits, LBSequence};
use crate::value::{is_canonical, lemma_canonical_unique, lemma_spell, spell};
use core::cmp::Ordering;
use vstd::prelude::*;
use vstd::string::StrSliceExecFns;

verus! {

/// The buffer that stores `cs`: the runs of the codepoints, one after the other.
pub open spec fn encode_text(cs: Seq<char>) -> Seq<LinkedByte>
    decreases cs.len(),
{
    if cs.len() == 0 {
        Seq::empty()
    } else {
        encode_text(cs.drop_last()) + spell(cs.last() as nat)
    }
}

/// `cs` with every NUL left out: a NUL has an empty run, so it leaves no trace in the
/// buffer.
pub open spec fn without_nul(cs: Seq<char>) -> Seq<char>
    decreases cs.len(),
{
    if cs.len() == 0 {
        Seq::empty()
    } else if cs.last() == '\0' {
        without_nul(cs.drop_last())
    } else {
        without_nul(cs.drop_last()).push(cs.last())
    }
}

pub open spec fn no_nul(cs: Seq<char>) -> bool {
    forall|i: int| 0 <= i < cs.len() ==> #[trigger] cs[i] != '\0'
}

/// Lexicographic order of codepoint sequences; a strict prefix comes first.
pub open spec fn lex_cmp(a: Seq<char>, b: Seq<char>) -> Ordering
    decreases a.len(),
{
    if a.len() == 0 {
        if b.len() == 0 {
            Ordering::Equal
        } else {
            Ordering::Less
        }
    } else if b.len() == 0 {
        Ordering::Greater
    } else if (a[0] as u32) < (b[0] as u32) {
        Ordering::Less
    } else if (a[0] as u32) > (b[0] as u32) {
        Ordering::Greater
    } else {
        lex_cmp(a.skip(1), b.skip(1))
    }
}

/// Text without NUL comes back whole: decoding what was stored for `cs` gives `cs`.
pub proof fn lemma_text_round_trip(cs: Seq<char>)
    requires
        no_nul(cs),
    ensures
        without_nul(cs) == cs,
    decreases cs.len(),
{
    if cs.len() > 0 {
        assert(no_nul(cs.drop_last()));
        lemma_text_round_trip(cs.drop_last());
        assert(cs.last() == cs[cs.len() - 1]);
        assert(cs.drop_last().push(cs.last()) =~= cs);
    }
}

/// Storing two texts one after the other stores their concatenation.
pub proof fn lemma_encode_concat(a: Seq<char>, b: Seq<char>)
    ensures
        encode_text(a + b) == encode_text(a) + encode_text(b),
    decreases b.len(),
{
    if b.len() == 0 {
        assert(a + b =~= a);
        assert(encode_text(a) + encode_text(b) =~= encode_text(a));
    } else {
        lemma_encode_concat(a, b.drop_last());
        assert((a + b).drop_last() =~= a + b.drop_last());
        assert((a + b).last() == b.last());
        assert(encode_text(a + b) =~= encode_text(a) + encode_text(b));
    }
}

/// The buffer of `cs` around its codepoint `k`: the runs before it, its own run, the runs
/// after it.
proof fn lemma_encode_around(cs: Seq<char>, k: int)
    requires
        0 <= k < cs.len(),
    ensures
        encode_text(cs) == encode_text(cs.take(k)) + spell(cs[k] as nat) + encode_text(
            cs.skip(k + 1),
        ),
{
    assert(cs =~= cs.take(k) + (seq![cs[k]] + cs.skip(k + 1)));
    lemma_encode_concat(cs.take(k), seq![cs[k]] + cs.skip(k + 1));
    lemma_encode_concat(seq![cs[k]], cs.skip(k + 1));
    assert(seq![cs[k]].drop_last() =~= Seq::<char>::empty());
    assert(encode_text(Seq::<char>::empty()) == Seq::<LinkedByte>::empty());
    assert(encode_text(seq![cs[k]]) =~= spell(cs[k] as nat));
    assert(encode_text(cs.take(k)) + (spell(cs[k] as nat) + encode_text(cs.skip(k + 1)))
        =~= encode_text(cs.take(k)) + spell(cs[k] as nat) + encode_text(cs.skip(k + 1)));
}

/// What the number of a character is: its scalar value, zero only for NUL; and
/// characters with the same number are the same.
proof fn lemma_char_code(c: char, d: char)
    ensures
        c as nat == c as u32,
        c as int == c as u32,
        c as u32 <= 0xD7FF || (0xE000 <= c as u32 && c as u32 <= 0x10FFFF),
        (c == '\0') == (c as nat == 0),
        (c as u32 == d as u32) ==> c == d,
{
}

/// Lexicographic comparison says `Equal` exactly for equal sequences.
pub proof fn lemma_lex_cmp_equal(a: Seq<char>, b: Seq<char>)
    ensures
        (lex_cmp(a, b) == Ordering::Equal) == (a == b),
    decreases a.len(),
{
    if a.len() == 0 || b.len() == 0 {
        if a.len() == b.len() {
            assert(a =~= b);
        } else {
            assert(a.len() != b.len());
        }
    } else {
        lemma_lex_cmp_equal(a.skip(1), b.skip(1));
        if a == b {
            assert(a.skip(1) == b.skip(1));
        }
        lemma_char_code(a[0], b[0]);
        if (a[0] as u32) == (b[0] as u32) && a.skip(1) == b.skip(1) {
            assert(a =~= seq![a[0]] + a.skip(1));
            assert(b =~= seq![b[0]] + b.skip(1));
        }
    }
}

/// Relies on `char::from_u32`: `Some` exactly for the Unicode scalar values, holding the
/// character of that number.
#[verifier::external_body]
fn char_from_u32(n: u32) -> (r: Option<char>)
    ensures
        (n <= 0xD7FF || (0xE000 <= n && n <= 0x10FFFF)) ==> r is Some,
        r matches Some(c) ==> c as u32 == n,
{
    char::from_u32(n)
}

/// Unicode text as a buffer of Linked Bytes digits, one canonical run per codepoint.
pub struct LBString(LBSequence, Ghost<Seq<char>>);

impl View for LBString {
    type V = Seq<char>;

    /// The codepoints stored.
    closed spec fn view(&self) -> Seq<char> {
        self.1@
    }
}

impl LBString {
    /// The buffer holds the runs of the codepoints, none of which is NUL.
    #[verifier::type_invariant]
    spec fn runs_match(self) -> bool {
        &&& self.0@ == encode_text(self.1@)
        &&& no_nul(self.1@)
    }

    /// The raw buffer.
    pub closed spec fn buffer(&self) -> Seq<LinkedByte> {
        self.0@
    }

    /// Stores the codepoints of `cs`, each as the canonical run of its number, appended
    /// one after the other. A NUL has an empty run and leaves no trace.
    pub fn from_chars(cs: &Vec<char>) -> (r: LBString)
        ensures
            r@ == without_nul(cs@),
            r.buffer() == encode_text(cs@),
    {
        let mut buf: Vec<LinkedByte> = Vec::new();
        let ghost mut text: Seq<char> = Seq::empty();
        let mut k: usize = 0;
        proof {
            assert(cs@.take(0) =~= Seq::<char>::empty());
        }
        while k < cs.len()
            invariant
                k <= cs@.len(),
                text == without_nul(cs@.take(k as int)),
                buf@ == encode_text(text),
                buf@ == encode_text(cs@.take(k as int)),
                no_nul(text),
            decreases cs@.len() - k,
        {
            let c = cs[k];
            let n = LBNum::from_u32(c as u32);
            let digits = n.iter_le();
            proof {
                lemma_char_code(c, c);
                lemma_spell(c as nat);
                lemma_canonical_unique(digits@, spell(c as nat));
                assert(cs@.take(k + 1).drop_last() =~= cs@.take(k as int));
                assert(cs@.take(k + 1).last() == c);
            }
            let ghost before = buf@;
            let mut i: usize = 0;
            while i < digits.len()
                invariant
                    i <= digits@.len(),
                    buf@ == before + digits@.take(i as int),
                decreases digits@.len() - i,
            {
                buf.push(digits[i]);
                i += 1;
                assert(buf@ =~= before + digits@.take(i as int));
            }
            proof {
                assert(digits@.take(i as int) =~= digits@);
                if c == '\0' {
                    assert(buf@ =~= before);
                } else {
                    let t2 = text.push(c);
                    assert(t2.drop_last() =~= text);
                    text = t2;
                }
            }
            k += 1;
        }
        proof {
            assert(cs@.take(k as int) =~= cs@);
        }
        LBString(LBSequence(buf), Ghost(text))
    }

    /// Stores the characters of `s`.
    pub fn from_str(s: &str) -> (r: LBString)
        ensures
            r@ == without_nul(s@),
            r.buffer() == encode_text(s@),
    {
        let n = s.unicode_len();
        let mut cs: Vec<char> = Vec::new();
        let mut i: usize = 0;
        while i < n
            invariant
                n == s@.len(),
                i <= n,
                cs@ == s@.take(i as int),
            decreases n - i,
        {
            cs.push(s.get_char(i));
            i += 1;
            assert(cs@ =~= s@.take(i as int));
        }
        assert(s@.take(i as int) =~= s@);
        Self::from_chars(&cs)
    }

    /// A decoding pass over the codepoints.
    pub fn chars_iter(&self) -> (r: LBCharsIter<'_>)
        ensures
            r.text() == self@,
            r.position() == 0,
    {
        LBCharsIter::new(self)
    }

    /// The codepoints, decoded.
    pub fn chars(&self) -> (r: Vec<char>)
        ensures
            r@ == self@,
    {
        let mut it = LBCharsIter::new(self);
        let mut r: Vec<char> = Vec::new();
        loop
            invariant_except_break
                it.text() == self@,
                it.position() <= self@.len(),
                r@ == self@.take(it.position() as int),
            ensures
                r@ == self@,
            decreases self@.len() - it.position(),
        {
            match it.next() {
                Some(c) => {
                    r.push(c);
                    assert(r@ =~= self@.take(it.position() as int));
                },
                None => {
                    assert(self@.take(it.position() as int) =~= self@);
                    break;
                },
            }
        }
        r
    }

    /// The number of codepoints.
    pub fn len(&self) -> (r: usize)
        ensures
            r == self@.len(),
    {
        self.chars().len()
    }

    /// Whether there is no codepoint, which is the case exactly when the buffer is empty.
    pub fn is_empty(&self) -> (r: bool)
        ensures
            r == (self@.len() == 0),
    {
        proof {
            use_type_invariant(self);
            if self@.len() > 0 {
                let k = self@.len() - 1;
                lemma_encode_around(self@, k);
                lemma_char_code(self@[k], self@[k]);
                lemma_spell(self@[k] as nat);
            }
        }
        self.0.0.len() == 0
    }

    /// The raw buffer.
    pub fn inner(&self) -> (r: &LBSequence)
        ensures
            r@ == self.buffer(),
    {
        &self.0
    }

    /// The text as a `String`.
    pub fn to_string(&self) -> (r: String)
        ensures
            r@ == self@,
    {
        let cs = self.chars();
        let mut s = String::new();
        let mut i: usize = 0;
        while i < cs.len()
            invariant
                i <= cs@.len(),
                s@ == cs@.take(i as int),
            decreases cs@.len() - i,
        {
            push_char(&mut s, cs[i]);
            i += 1;
            assert(s@ =~= cs@.take(i as int));
        }
        assert(cs@.take(i as int) =~= cs@);
        s
    }

    /// Orders texts by their codepoints, lexicographically; a strict prefix comes first.
    pub fn compare(&self, other: &LBString) -> (r: Ordering)
        ensures
            r == lex_cmp(self@, other@),
    {
        let a = self.chars();
        let b = other.chars();
        let mut i: usize = 0;
        proof {
            assert(a@.skip(0) =~= a@);
            assert(b@.skip(0) =~= b@);
        }
        while i < a.len() && i < b.len() && a[i] as u32 == b[i] as u32
            invariant
                i <= a@.len(),
                i <= b@.len(),
                lex_cmp(a@, b@) == lex_cmp(a@.skip(i as int), b@.skip(i as int)),
            decreases a@.len() - i,
        {
            proof {
                assert(a@.skip(i as int).skip(1) =~= a@.skip(i + 1));
                assert(b@.skip(i as int).skip(1) =~= b@.skip(i + 1));
            }
            i += 1;
        }
        if i == a.len() {
            if i == b.len() {
                Ordering::Equal
            } else {
                Ordering::Less
            }
        } else if i == b.len() {
            Ordering::Greater
        } else if (a[i] as u32) < (b[i] as u32) {
            Ordering::Less
        } else {
            Ordering::Greater
        }
    }
}

impl Clone for LBString {
    fn clone(&self) -> (r: LBString)
        ensures
            r@ == self@,
            r.buffer() == self.buffer(),
    {
        proof {
            use_type_invariant(self);
        }
        LBString(LBSequence(copy_digits(&self.0.0)), Ghost(self.1@))
    }
}

impl PartialEq for LBString {
    fn eq(&self, other: &LBString) -> (r: bool) {
        proof {
            lemma_lex_cmp_equal(self@, other@);
        }
        match self.compare(other) {
            Ordering::Equal => true,
            _ => false,
        }
    }
}

impl vstd::std_specs::cmp::PartialEqSpecImpl for LBString {
    open spec fn obeys_eq_spec() -> bool {
        true
    }

    open spec fn eq_spec(&self, other: &LBString) -> bool {
        self@ == other@
    }
}

impl Eq for LBString {
}

impl PartialOrd for LBString {
    fn partial_cmp(&self, other: &LBString) -> (r: Option<Ordering>) {
        Some(self.compare(other))
    }
}

impl vstd::std_specs::cmp::PartialOrdSpecImpl for LBString {
    open spec fn obeys_partial_cmp_spec() -> bool {
        true
    }

    open spec fn partial_cmp_spec(&self, other: &LBString) -> Option<Ordering> {
        Some(lex_cmp(self@, other@))
    }
}

/// A pass over the codepoints of an `LBString`, decoding one run at a time.
pub struct LBCharsIter<'a> {
    inner: &'a LBString,
    index: usize,
    pos: Ghost<nat>,
}

impl<'a> LBCharsIter<'a> {
    /// The pass stands at the start of the run of codepoint `pos`.
    #[verifier::type_invariant]
    spec fn at_run_start(self) -> bool {
        &&& self.pos@ <= self.inner@.len()
        &&& self.index == encode_text(self.inner@.take(self.pos@ as int)).len()
    }

    /// The codepoints being decoded.
    pub closed spec fn text(&self) -> Seq<char> {
        self.inner@
    }

    /// How many codepoints have been decoded.
    pub closed spec fn position(&self) -> nat {
        self.pos@
    }

    pub fn new(s: &'a LBString) -> (r: LBCharsIter<'a>)
        ensures
            r.text() == s@,
            r.position() == 0,
    {
        proof {
            assert(s@.take(0) =~= Seq::<char>::empty());
        }
        LBCharsIter { inner: s, index: 0, pos: Ghost(0) }
    }

    /// Decodes the next codepoint: takes digits up to the first endpoint and reads them
    /// as a number.
    pub fn next(&mut self) -> (r: Option<char>)
        ensures
            final(self).text() == old(self).text(),
            old(self).position() < old(self).text().len() ==> (r == Some(
                old(self).text()[old(self).position() as int],
            ) && final(self).position() == old(self).position() + 1),
            old(self).position() >= old(self).text().len() ==> (r is None
                && final(self).position() == old(self).position()),
    {
        proof {
            use_type_invariant(&*self);
            use_type_invariant(self.inner);
        }
        let buf = &self.inner.0.0;
        let ghost cs = self.inner@;
        let ghost k: int = self.pos@ as int;
        let start = self.index;
        if start >= buf.len() {
            proof {
                if k < cs.len() {
                    lemma_char_code(cs[k], cs[k]);
                    lemma_encode_around(cs, k);
                    lemma_spell(cs[k as int] as nat);
                }
            }
            return None;
        }
        proof {
            if k >= cs.len() {
                assert(cs.take(k as int) =~= cs);
            }
            lemma_encode_around(cs, k);
            lemma_spell(cs[k as int] as nat);
        }
        proof {
            lemma_char_code(cs[k], cs[k]);
        }
        let ghost run = spell(cs[k as int] as nat);
        let ghost before = encode_text(cs.take(k as int));
        assert(buf@ == before + run + encode_text(cs.skip(k + 1)));
        let blen = buf.len();
        let mut j = start;
        while buf[j].is_linked()
            invariant
                blen == buf@.len(),
                buf@ == before + run + encode_text(cs.skip(k + 1)),
                start == before.len(),
                start <= j < start + run.len(),
                run.len() > 0,
                is_canonical(run),
            decreases start + run.len() - j,
        {
            assert(buf@[j as int] == run[j - start]);
            j += 1;
        }
        assert(buf@[j as int] == run[j - start]);
        assert(j == start + run.len() - 1);
        let mut digits: Vec<LinkedByte> = Vec::new();
        let mut i = start;
        while i <= j
            invariant
                blen == buf@.len(),
                buf@ == before + run + encode_text(cs.skip(k + 1)),
                start == before.len(),
                j == start + run.len() - 1,
                start <= i <= j + 1,
                digits@ == run.take(i - start),
            decreases j + 1 - i,
        {
            digits.push(buf[i]);
            i += 1;
            assert(digits@ =~= run.take(i - start));
        }
        assert(run.take(i - start) =~= run);
        let n = LBNum::try_from_sequence(LBSequence(digits));
        let r = match n {
            Ok(n) => match n.try_into_u32() {
                Ok(v) => char_from_u32(v),
                Err(_) => None,
            },
            Err(_) => None,
        };
        proof {
            assert(cs.take(k + 1) =~= cs.take(k as int).push(cs[k as int]));
            assert(cs.take(k + 1).drop_last() =~= cs.take(k as int));
        }
        proof {
            assert(encode_text(cs.take(k + 1)) == before + run);
            if let Some(ch) = r {
                lemma_char_code(ch, cs[k]);
            }
        }
        *self = LBCharsIter { inner: self.inner, index: j + 1, pos: Ghost((k + 1) as nat) };
        r
    }
}

} // verus!
