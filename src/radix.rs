//! Spelling a Linked Bytes number in a base from 2 to 36.
use crate::lbnum::LBNum;
use vstd::prelude::*;

verus! {

/// The symbol of a digit below 36: `0`-`9`, then `A`-`Z`.
pub open spec fn radix_symbol(d: nat) -> char {
    if d < 10 {
        (48 + d) as char
    } else {
        (55 + d) as char
    }
}

/// `n` written in base `radix`, most significant digit first, without leading zeros; zero
/// is written `0`.
pub open spec fn radix_string(n: nat, radix: nat) -> Seq<char>
    decreases n,
{
    if radix < 2 || n < radix {
        seq![radix_symbol(n)]
    } else {
        proof {
            assert(n / radix < n) by (nonlinear_arith)
                requires
                    radix >= 2,
                    n >= radix,
            ;
        }
        radix_string(n / radix, radix).push(radix_symbol(n % radix))
    }
}

/// Zero is written `0` in every base.
pub proof fn lemma_radix_zero(radix: nat)
    ensures
        radix_string(0, radix) == seq!['0'],
{
    assert(radix_symbol(0) == '0');
}

/// Relies on `String::push`: appends one character.
#[verifier::external_body]
pub(crate) fn push_char(s: &mut String, c: char)
    ensures
        final(s)@ == old(s)@.push(c),
{
    s.push(c);
}

/// The symbol of a digit below 36.
fn symbol_of(d: u8) -> (r: char)
    requires
        d < 36,
    ensures
        r == radix_symbol(d as nat),
{
    if d < 10 {
        (48 + d) as char
    } else {
        (55 + d) as char
    }
}

impl LBNum {
    /// The number written in base `radix`, 2 to 36, with the symbols `0`-`9` and `A`-`Z`:
    /// the remainders of repeated division by the radix, most significant first.
    pub fn into_string_with_radix(self, radix: u8) -> (r: String)
        requires
            2 <= radix <= 36,
        ensures
            r@ == radix_string(self.value(), radix as nat),
    {
        let rad = LBNum::from_u8(radix);
        let ghost rv = radix as nat;
        let ghost total = radix_string(self.value(), rv);
        let mut n = self;
        let mut syms: Vec<char> = Vec::new();
        loop
            invariant_except_break
                total == radix_string(n.value(), rv) + syms@,
            invariant
                rad.value() == rv,
                2 <= rv <= 36,
            ensures
                total == syms@,
            decreases n.value(),
        {
            let (q, rm) = n.div_rem(&rad);
            // The remainder is below the radix, so the conversion succeeds.
            let d = match rm.try_into_u8() {
                Ok(d) => d,
                Err(_) => 0,
            };
            let c = symbol_of(d);
            let ghost nv = n.value();
            proof {
                assert(nv % rv < rv) by (nonlinear_arith)
                    requires
                        rv >= 2,
                ;
                assert((nv / rv == 0) == (nv < rv)) by (nonlinear_arith)
                    requires
                        rv >= 2,
                ;
                if nv < rv {
                    assert(nv % rv == nv) by (nonlinear_arith)
                        requires
                            nv < rv,
                    ;
                }
                assert(nv / rv <= nv) by (nonlinear_arith)
                    requires
                        rv >= 2,
                ;
            }
            syms.insert(0, c);
            if q.num_bytes() == 0 {
                proof {
                    crate::value::lemma_canonical_zero(q@);
                    assert(total == syms@);
                }
                break;
            }
            proof {
                crate::value::lemma_canonical_zero(q@);
                assert(radix_string(nv, rv) == radix_string(nv / rv, rv).push(c));
                assert(total =~= radix_string(q.value(), rv) + syms@);
                assert(nv / rv < nv) by (nonlinear_arith)
                    requires
                        rv >= 2,
                        nv >= rv,
                ;
            }
            n = q;
        }
        let mut s = String::new();
        let mut i: usize = 0;
        while i < syms.len()
            invariant
                i <= syms@.len(),
                s@ == syms@.take(i as int),
            decreases syms@.len() - i,
        {
            push_char(&mut s, syms[i]);
            i += 1;
            assert(s@ =~= syms@.take(i as int));
        }
        assert(syms@.take(i as int) =~= syms@);
        s
    }
}

} // verus!
