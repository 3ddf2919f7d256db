//! The mathematical reading of a digit sequence: a little-endian base-128 numeral, and the
//! canonical form in which every number has exactly one spelling.
use crate::linkedbyte::LinkedByte;
use vstd::prelude::*;

verus! {

/// 128 raised to the power `n`.
pub open spec fn pow128(n: nat) -> nat
    decreases n,
{
    if n == 0 {
        1
    } else {
        128 * pow128((n - 1) as nat)
    }
}

/// The number spelled by `s`, least significant digit first. Continuation bits do not count.
pub open spec fn digits_value(s: Seq<LinkedByte>) -> nat
    decreases s.len(),
{
    if s.len() == 0 {
        0
    } else {
        s[0].magnitude() + 128 * digits_value(s.skip(1))
    }
}

/// The continuation bits are consistent: every digit but the last is linked, the last is
/// an endpoint. The empty sequence qualifies.
pub open spec fn links_valid(s: Seq<LinkedByte>) -> bool {
    &&& forall|i: int| 0 <= i < s.len() - 1 ==> #[trigger] s[i].linked()
    &&& s.len() > 0 ==> !s.last().linked()
}

/// The canonical form: consistent continuation bits and no most-significant zero digit, so
/// that zero is the empty sequence.
pub open spec fn is_canonical(s: Seq<LinkedByte>) -> bool {
    &&& links_valid(s)
    &&& s.len() > 0 ==> s.last().magnitude() != 0
}

/// Two sequences whose digits carry the same magnitudes position by position.
pub open spec fn same_magnitudes(s: Seq<LinkedByte>, t: Seq<LinkedByte>) -> bool {
    &&& s.len() == t.len()
    &&& forall|i: int| 0 <= i < s.len() ==> #[trigger] s[i].magnitude() == t[i].magnitude()
}

pub proof fn lemma_pow128_positive(n: nat)
    ensures
        pow128(n) >= 1,
    decreases n,
{
    if n > 0 {
        lemma_pow128_positive((n - 1) as nat);
    }
}

pub proof fn lemma_pow128_monotonic(a: nat, b: nat)
    requires
        a <= b,
    ensures
        pow128(a) <= pow128(b),
        a < b ==> pow128(a) < pow128(b),
    decreases b - a,
{
    if a < b {
        lemma_pow128_monotonic(a, (b - 1) as nat);
        lemma_pow128_positive((b - 1) as nat);
    }
}

/// Appending a digit on the most significant side adds its magnitude times the weight of
/// its position.
pub proof fn lemma_value_push(s: Seq<LinkedByte>, d: LinkedByte)
    ensures
        digits_value(s.push(d)) == digits_value(s) + d.magnitude() * pow128(s.len()),
    decreases s.len(),
{
    if s.len() == 0 {
        assert(s.push(d).skip(1) =~= Seq::<LinkedByte>::empty());
        assert(digits_value(s.push(d).skip(1)) == 0);
        assert(digits_value(s) == 0);
        assert(s.push(d)[0] == d);
        assert(pow128(0) == 1);
    } else {
        assert(s.push(d).skip(1) =~= s.skip(1).push(d));
        lemma_value_push(s.skip(1), d);
        let a = digits_value(s.skip(1));
        let p = pow128((s.len() - 1) as nat);
        let m = d.magnitude();
        assert(s.push(d)[0] == s[0]);
        assert(digits_value(s.push(d)) == s[0].magnitude() + 128 * (a + m * p));
        assert(pow128(s.len()) == 128 * p);
        assert(128 * (a + m * p) == 128 * a + m * (128 * p)) by (nonlinear_arith);
    }
}

/// The value of the first `i + 1` digits, from that of the first `i`.
pub proof fn lemma_value_take_step(s: Seq<LinkedByte>, i: int)
    requires
        0 <= i < s.len(),
    ensures
        digits_value(s.take(i + 1)) == digits_value(s.take(i)) + s[i].magnitude() * pow128(
            i as nat,
        ),
{
    assert(s.take(i + 1) =~= s.take(i).push(s[i]));
    lemma_value_push(s.take(i), s[i]);
}

/// Removing a most-significant zero digit keeps the value.
pub proof fn lemma_value_drop_last_zero(s: Seq<LinkedByte>)
    requires
        s.len() > 0,
        s.last().magnitude() == 0,
    ensures
        digits_value(s.drop_last()) == digits_value(s),
{
    assert(s =~= s.drop_last().push(s.last()));
    lemma_value_push(s.drop_last(), s.last());
}

/// The value depends on the magnitudes alone.
pub proof fn lemma_value_same_magnitudes(s: Seq<LinkedByte>, t: Seq<LinkedByte>)
    requires
        same_magnitudes(s, t),
    ensures
        digits_value(s) == digits_value(t),
    decreases s.len(),
{
    if s.len() > 0 {
        assert(same_magnitudes(s.skip(1), t.skip(1))) by {
            assert forall|i: int| 0 <= i < s.skip(1).len() implies #[trigger] s.skip(1)[i].magnitude()
                == t.skip(1)[i].magnitude() by {
                assert(s.skip(1)[i] == s[i + 1]);
                assert(t.skip(1)[i] == t[i + 1]);
            }
        }
        lemma_value_same_magnitudes(s.skip(1), t.skip(1));
        assert(s[0].magnitude() == t[0].magnitude());
    }
}

/// A sequence of `n` digits spells a number below `128^n`.
pub proof fn lemma_value_bound(s: Seq<LinkedByte>)
    ensures
        digits_value(s) < pow128(s.len()),
    decreases s.len(),
{
    if s.len() > 0 {
        lemma_value_bound(s.skip(1));
        assert(s[0].magnitude() < 128);
    }
}

/// Splitting a sequence at `k`: the low part plus the high part shifted by `k` digits.
pub proof fn lemma_value_split(s: Seq<LinkedByte>, k: int)
    requires
        0 <= k <= s.len(),
    ensures
        digits_value(s) == digits_value(s.take(k)) + pow128(k as nat) * digits_value(s.skip(k)),
    decreases k,
{
    if k == 0 {
        assert(s.take(k) =~= Seq::<LinkedByte>::empty());
        assert(digits_value(s.take(k)) == 0);
        assert(s.skip(k) =~= s);
        let x = digits_value(s.skip(k));
        assert(pow128(k as nat) * x == x) by (nonlinear_arith)
            requires
                pow128(k as nat) == 1,
        ;
    } else {
        let t = s.skip(1);
        lemma_value_split(t, k - 1);
        assert(s.take(k).skip(1) =~= t.take(k - 1));
        assert(t.skip(k - 1) =~= s.skip(k));
        assert(s.take(k)[0] == s[0]);
        let a = digits_value(t.take(k - 1));
        let b = digits_value(s.skip(k));
        let p = pow128((k - 1) as nat);
        assert(digits_value(s) == s[0].magnitude() + 128 * (a + p * b));
        assert(digits_value(s.take(k)) == s[0].magnitude() + 128 * a);
        assert(pow128(k as nat) == 128 * p);
        assert(128 * (a + p * b) == 128 * a + (128 * p) * b) by (nonlinear_arith);
        assert(pow128(k as nat) * b == (128 * p) * b);
    }
}

/// A canonical sequence with `n > 0` digits spells at least `128^(n-1)`.
pub proof fn lemma_canonical_lower_bound(s: Seq<LinkedByte>)
    requires
        is_canonical(s),
        s.len() > 0,
    ensures
        digits_value(s) >= pow128((s.len() - 1) as nat),
{
    assert(s =~= s.drop_last().push(s.last()));
    lemma_value_push(s.drop_last(), s.last());
    let p = pow128((s.len() - 1) as nat);
    let m = s.last().magnitude();
    assert(m >= 1 ==> m * p >= p) by (nonlinear_arith);
}

/// Zero is the empty sequence, and only that.
pub proof fn lemma_canonical_zero(s: Seq<LinkedByte>)
    requires
        is_canonical(s),
    ensures
        digits_value(s) == 0 <==> s.len() == 0,
{
    if s.len() > 0 {
        lemma_canonical_lower_bound(s);
        lemma_pow128_positive((s.len() - 1) as nat);
    }
}

/// Of two canonical sequences, the longer spells the larger number.
pub proof fn lemma_canonical_longer_is_larger(a: Seq<LinkedByte>, b: Seq<LinkedByte>)
    requires
        is_canonical(a),
        is_canonical(b),
        a.len() < b.len(),
    ensures
        digits_value(a) < digits_value(b),
{
    lemma_value_bound(a);
    lemma_canonical_lower_bound(b);
    lemma_pow128_monotonic(a.len(), (b.len() - 1) as nat);
}

/// Two sequences of one length that agree above position `j` are ordered by their digits
/// at `j`.
pub proof fn lemma_first_difference_decides(a: Seq<LinkedByte>, b: Seq<LinkedByte>, j: int)
    requires
        a.len() == b.len(),
        0 <= j < a.len(),
        forall|k: int| j < k < a.len() ==> #[trigger] a[k].magnitude() == b[k].magnitude(),
        a[j].magnitude() < b[j].magnitude(),
    ensures
        digits_value(a) < digits_value(b),
{
    lemma_value_split(a, j + 1);
    lemma_value_split(b, j + 1);
    assert(same_magnitudes(a.skip(j + 1), b.skip(j + 1))) by {
        assert forall|i: int| 0 <= i < a.skip(j + 1).len() implies #[trigger] a.skip(j + 1)[i].magnitude()
            == b.skip(j + 1)[i].magnitude() by {
            assert(a.skip(j + 1)[i] == a[j + 1 + i]);
            assert(b.skip(j + 1)[i] == b[j + 1 + i]);
        }
    }
    lemma_value_same_magnitudes(a.skip(j + 1), b.skip(j + 1));
    lemma_value_take_step(a, j);
    lemma_value_take_step(b, j);
    lemma_value_bound(a.take(j));
    let p = pow128(j as nat);
    let am = a[j].magnitude();
    let bm = b[j].magnitude();
    assert(am * p + p <= bm * p) by (nonlinear_arith)
        requires
            am + 1 <= bm,
    ;
    assert(a.take(j).len() == j);
    assert(a.skip(j + 1).len() == b.skip(j + 1).len());
    let ha = digits_value(a.take(j + 1));
    let hb = digits_value(b.take(j + 1));
    assert(ha < hb);
    let q = pow128((j + 1) as nat);
    let h = digits_value(a.skip(j + 1));
    assert(ha + q * h < hb + q * h);
}

/// Each number has exactly one canonical spelling.
pub proof fn lemma_canonical_unique(a: Seq<LinkedByte>, b: Seq<LinkedByte>)
    requires
        is_canonical(a),
        is_canonical(b),
        digits_value(a) == digits_value(b),
    ensures
        a == b,
{
    if a.len() < b.len() {
        lemma_canonical_longer_is_larger(a, b);
    } else if b.len() < a.len() {
        lemma_canonical_longer_is_larger(b, a);
    } else {
        assert forall|i: int| 0 <= i < a.len() implies a[i] == b[i] by {
            if a[i].magnitude() != b[i].magnitude() {
                lemma_highest_difference(a, b, i);
            }
            LinkedByte::lemma_parts_determine(a[i], b[i]);
        }
        assert(a =~= b);
    }
}

/// Where two sequences of one length differ somewhere at or above `i`, the one with the
/// larger digit at the highest difference is larger; so their values differ.
proof fn lemma_highest_difference(a: Seq<LinkedByte>, b: Seq<LinkedByte>, i: int)
    requires
        a.len() == b.len(),
        0 <= i < a.len(),
        a[i].magnitude() != b[i].magnitude(),
    ensures
        digits_value(a) != digits_value(b),
    decreases a.len() - i,
{
    if exists|k: int| i < k < a.len() && #[trigger] a[k].magnitude() != b[k].magnitude() {
        let k = choose|k: int| i < k < a.len() && #[trigger] a[k].magnitude() != b[k].magnitude();
        lemma_highest_difference(a, b, k);
    } else if a[i].magnitude() < b[i].magnitude() {
        lemma_first_difference_decides(a, b, i);
    } else {
        lemma_first_difference_decides(b, a, i);
    }
}

/// Replacing the digit at `k` changes the value by the difference of magnitudes, times the
/// weight of position `k`.
pub proof fn lemma_value_update(s: Seq<LinkedByte>, k: int, d: LinkedByte)
    requires
        0 <= k < s.len(),
    ensures
        digits_value(s.update(k, d)) + s[k].magnitude() * pow128(k as nat) == digits_value(s)
            + d.magnitude() * pow128(k as nat),
{
    let t = s.update(k, d);
    lemma_value_split(s, k);
    lemma_value_split(t, k);
    assert(t.take(k) =~= s.take(k));
    assert(t.skip(k + 1) =~= s.skip(k + 1));
    assert(s.skip(k).skip(1) =~= s.skip(k + 1));
    assert(t.skip(k).skip(1) =~= s.skip(k + 1));
    assert(s.skip(k)[0] == s[k]);
    assert(t.skip(k)[0] == d);
    let h = digits_value(s.skip(k + 1));
    let p = pow128(k as nat);
    let lo = digits_value(s.take(k));
    assert(digits_value(s.skip(k)) == s[k].magnitude() + 128 * h);
    assert(digits_value(t.skip(k)) == d.magnitude() + 128 * h);
    let x = s[k].magnitude();
    let y = d.magnitude();
    assert(p * (y + 128 * h) + x * p == p * (x + 128 * h) + y * p) by (nonlinear_arith);
}

/// Appending zero digits keeps the value.
pub proof fn lemma_value_push_zero(s: Seq<LinkedByte>, d: LinkedByte)
    requires
        d.magnitude() == 0,
    ensures
        digits_value(s.push(d)) == digits_value(s),
{
    lemma_value_push(s, d);
}

/// How `a` compares with `b`.
pub open spec fn ordering_of(a: nat, b: nat) -> core::cmp::Ordering {
    if a < b {
        core::cmp::Ordering::Less
    } else if a == b {
        core::cmp::Ordering::Equal
    } else {
        core::cmp::Ordering::Greater
    }
}

/// 1 for a set flag, 0 otherwise: a carry or a borrow as a number.
pub open spec fn flag(b: bool) -> nat {
    if b {
        1
    } else {
        0
    }
}

/// Orders equal-length sequences by their magnitudes from position `n - 1` down.
pub open spec fn top_cmp(a: Seq<LinkedByte>, b: Seq<LinkedByte>, n: nat) -> core::cmp::Ordering
    decreases n,
{
    if n == 0 {
        core::cmp::Ordering::Equal
    } else if a[n - 1].magnitude() < b[n - 1].magnitude() {
        core::cmp::Ordering::Less
    } else if a[n - 1].magnitude() > b[n - 1].magnitude() {
        core::cmp::Ordering::Greater
    } else {
        top_cmp(a, b, (n - 1) as nat)
    }
}

/// The order of digit sequences: more digits is larger; sequences of one length compare
/// digit by digit, most significant first.
pub open spec fn digits_cmp(a: Seq<LinkedByte>, b: Seq<LinkedByte>) -> core::cmp::Ordering {
    if a.len() < b.len() {
        core::cmp::Ordering::Less
    } else if a.len() > b.len() {
        core::cmp::Ordering::Greater
    } else {
        top_cmp(a, b, a.len())
    }
}

/// Digit-by-digit comparison from position `n - 1` down, where the digits above agree,
/// orders two sequences of one length by value.
pub proof fn lemma_top_cmp(a: Seq<LinkedByte>, b: Seq<LinkedByte>, n: nat)
    requires
        a.len() == b.len(),
        n <= a.len(),
        forall|k: int| n <= k < a.len() ==> #[trigger] a[k].magnitude() == b[k].magnitude(),
    ensures
        top_cmp(a, b, n) == ordering_of(digits_value(a), digits_value(b)),
    decreases n,
{
    if n == 0 {
        lemma_value_same_magnitudes(a, b);
    } else if a[n - 1].magnitude() < b[n - 1].magnitude() {
        lemma_first_difference_decides(a, b, n - 1);
    } else if a[n - 1].magnitude() > b[n - 1].magnitude() {
        lemma_first_difference_decides(b, a, n - 1);
    } else {
        lemma_top_cmp(a, b, (n - 1) as nat);
    }
}

/// On canonical sequences, the order of digit sequences is the order of the numbers they
/// spell.
pub proof fn lemma_digits_cmp_canonical(a: Seq<LinkedByte>, b: Seq<LinkedByte>)
    requires
        is_canonical(a),
        is_canonical(b),
    ensures
        digits_cmp(a, b) == ordering_of(digits_value(a), digits_value(b)),
{
    if a.len() < b.len() {
        lemma_canonical_longer_is_larger(a, b);
    } else if a.len() > b.len() {
        lemma_canonical_longer_is_larger(b, a);
    } else {
        lemma_top_cmp(a, b, a.len());
    }
}

/// The canonical spelling of `n`: empty for zero.
pub open spec fn spell(n: nat) -> Seq<LinkedByte>
    decreases n,
{
    if n == 0 {
        Seq::empty()
    } else {
        seq![LinkedByte((n % 128 + if n >= 128 { 128nat } else { 0nat }) as u8)] + spell(n / 128)
    }
}

/// The canonical spelling of `n` spells `n`, in canonical form; only zero is spelled by
/// the empty sequence.
pub proof fn lemma_spell(n: nat)
    ensures
        digits_value(spell(n)) == n,
        is_canonical(spell(n)),
        (spell(n).len() == 0) == (n == 0),
    decreases n,
{
    if n > 0 {
        lemma_spell(n / 128);
        let d = LinkedByte((n % 128 + if n >= 128 { 128nat } else { 0nat }) as u8);
        let rest = spell(n / 128);
        let s = spell(n);
        assert(s == seq![d] + rest);
        assert(s.skip(1) =~= rest);
        assert(s[0] == d);
        assert(d.magnitude() == n % 128);
        assert(d.linked() == (n >= 128));
        assert((rest.len() == 0) == (n < 128));
        assert forall|i: int| 0 <= i < s.len() - 1 implies #[trigger] s[i].linked() by {
            if i > 0 {
                assert(s[i] == rest[i - 1]);
            }
        }
        if rest.len() > 0 {
            assert(s.last() == rest.last());
        }
    }
}

/// The order of canonical digit sequences is a total order: `Equal` exactly for equal
/// sequences, antisymmetric, and transitive.
pub proof fn lemma_digits_cmp_total_order(a: Seq<LinkedByte>, b: Seq<LinkedByte>, c: Seq<LinkedByte>)
    requires
        is_canonical(a),
        is_canonical(b),
        is_canonical(c),
    ensures
        (digits_cmp(a, b) == core::cmp::Ordering::Equal) == (a == b),
        (digits_cmp(a, b) == core::cmp::Ordering::Less) == (digits_cmp(b, a)
            == core::cmp::Ordering::Greater),
        digits_cmp(a, b) == core::cmp::Ordering::Less && digits_cmp(b, c)
            == core::cmp::Ordering::Less ==> digits_cmp(a, c) == core::cmp::Ordering::Less,
        digits_cmp(a, b) != core::cmp::Ordering::Greater && digits_cmp(b, c)
            != core::cmp::Ordering::Greater ==> digits_cmp(a, c) != core::cmp::Ordering::Greater,
{
    lemma_digits_cmp_canonical(a, b);
    lemma_digits_cmp_canonical(b, a);
    lemma_digits_cmp_canonical(b, c);
    lemma_digits_cmp_canonical(a, c);
    if digits_value(a) == digits_value(b) {
        lemma_canonical_unique(a, b);
    }
}

/// Adding `b` to `a` and then subtracting `b` again gives back the digits of `a`.
pub proof fn lemma_add_then_sub(
    a: Seq<LinkedByte>,
    b: Seq<LinkedByte>,
    sum: Seq<LinkedByte>,
    diff: Seq<LinkedByte>,
)
    requires
        is_canonical(a),
        is_canonical(diff),
        digits_value(sum) == digits_value(a) + digits_value(b),
        digits_value(diff) + digits_value(b) == digits_value(sum),
    ensures
        diff == a,
{
    lemma_canonical_unique(diff, a);
}

} // verus!
