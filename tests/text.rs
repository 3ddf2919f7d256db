use bigbit::LBString;
use std::cmp::Ordering;

#[test]
fn two_letter_text() {
    let s = LBString::from_str("AB");
    assert_eq!(s.len(), 2);
    assert_eq!(s.inner().len(), 2);
    assert_eq!(s.chars(), vec!['A', 'B']);
    let mut it = s.chars_iter();
    assert_eq!(it.next(), Some('A'));
    assert_eq!(it.next(), Some('B'));
    assert_eq!(it.next(), None);
}

#[test]
fn text_round_trip() {
    let text = "héllo, wörld € 𝄞 \u{7f}\u{80}\u{3fff}\u{4000}\u{10ffff}";
    let s = LBString::from_str(text);
    assert_eq!(s.to_string(), text);
    assert_eq!(s.len(), text.chars().count());
    // Each codepoint takes as many digits as its number needs in base 128.
    let e = LBString::from_str("\u{4000}");
    assert_eq!(e.inner().len(), 3);
}

#[test]
fn nul_leaves_no_trace() {
    let s = LBString::from_chars(&vec!['a', '\0', 'b']);
    assert_eq!(s.chars(), vec!['a', 'b']);
    assert!(LBString::from_str("").is_empty());
    assert!(LBString::from_str("\0").is_empty());
}

#[test]
fn text_order() {
    let a = LBString::from_str("abc");
    let b = LBString::from_str("abd");
    let p = LBString::from_str("ab");
    assert_eq!(a.compare(&b), Ordering::Less);
    assert_eq!(b.compare(&a), Ordering::Greater);
    assert_eq!(p.compare(&a), Ordering::Less);
    assert_eq!(a.compare(&LBString::from_str("abc")), Ordering::Equal);
    assert!(a == LBString::from_str("abc"));
    assert!(a != b);
    assert!(a.clone() == a);
    assert!(p < a && a < b && !(b < a));
}
