use bigbit::lbnum::zero_fold;
use bigbit::{LBNum, LBSequence, LinkedByte};

#[test]
fn digit_fields() {
    let d = LinkedByte::from(200);
    assert_eq!(d.value(), 72);
    assert!(d.is_end());
    let l = d.into_linked();
    assert!(l.is_linked());
    assert_eq!(l.value(), 72);
    assert_eq!(l.into_inner(), 200);
    assert_eq!(l.into_end().into_inner(), 72);
    assert_eq!(l.into_int7(), 72);
    let mut m = LinkedByte::from(3);
    m.make_linked();
    assert!(m.is_linked());
    m.make_end();
    assert!(m.is_end());
    assert_eq!(u8::from(LinkedByte::from_parts(5, true)), 133);
    assert_eq!(LinkedByte::zero_link().into_inner(), 0x80);
    assert_eq!(LinkedByte::zero_end().into_inner(), 0);
    assert_eq!(LinkedByte::from((200u8, true)).into_inner(), 200);
    assert_eq!(LinkedByte::from((200u8, false)).into_inner(), 72);
    assert_eq!(LinkedByte::from((5u8, true)).into_inner(), 133);
}

#[test]
fn digit_overflow_carries() {
    let (r, carry) = LinkedByte::from(127).add_with_carry(LinkedByte::from(1));
    assert!(carry);
    assert_eq!(r.value(), 0);
    assert_eq!(LinkedByte::from(127).checked_add(LinkedByte::from(1)), None);
    let s = LinkedByte::from(100).into_linked().checked_add(LinkedByte::from(27)).unwrap();
    assert_eq!(s.value(), 127);
    assert!(s.is_linked());
    let (r2, carry2) = LinkedByte::from(100).add_with_carry(LinkedByte::from(20));
    assert!(!carry2);
    assert_eq!(r2.value(), 120);
}

#[test]
fn digit_underflow_borrows() {
    let (r, borrow) = LinkedByte::from(0).into_linked().sub_with_borrow(LinkedByte::from(1));
    assert!(borrow);
    assert_eq!(r.value(), 127);
    assert!(r.is_linked());
    assert_eq!(LinkedByte::from(3).checked_sub(LinkedByte::from(4)), None);
    assert_eq!(LinkedByte::from(9).checked_sub(LinkedByte::from(4)).unwrap().value(), 5);
}

#[test]
fn raw_sequences() {
    let mut s = LBSequence::from(vec![LinkedByte::from(1), LinkedByte::from(2)]);
    assert_eq!(s.len(), 2);
    assert!(!s.is_empty());
    assert_eq!(s.get(1).unwrap().value(), 2);
    assert!(s.get(2).is_none());
    if let Some(d) = s.get_mut(0) {
        d.make_linked();
    }
    assert!(s.inner()[0].is_linked());
    s.inner_mut().push(LinkedByte::from(7));
    assert_eq!(s.iter_be()[0].value(), 7);
    assert_eq!(s.iter_le()[0].value(), 1);
    assert!(LBSequence::empty().is_empty());
}

#[test]
fn zero_fold_ends_with_endpoint() {
    let mut v = vec![LinkedByte::from(5).into_linked(), LinkedByte::from(0)];
    zero_fold(&mut v);
    assert_eq!(v.len(), 1);
    assert_eq!(v[0].value(), 5);
    assert!(v[0].is_end());
    assert!(LBNum::check_slice(&v));
    let mut z = vec![LinkedByte::from(0).into_linked(), LinkedByte::from(0)];
    zero_fold(&mut z);
    assert!(z.is_empty());
}
