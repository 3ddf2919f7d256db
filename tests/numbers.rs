use bigbit::{gcd, LBNum, LBNumRef, LBSequence, LinkedByte, TryFromIntError};
use std::cmp::Ordering;

fn num(n: u128) -> LBNum {
    LBNum::from_u128(n)
}

fn val(n: &LBNum) -> u128 {
    n.try_into_u128().unwrap()
}

#[test]
fn integers_round_trip() {
    for n in [0u64, 1, 127, 128, 129, 16383, 16384, 1 << 40, u64::MAX] {
        assert_eq!(LBNum::from_u64(n).try_into_u64(), Ok(n));
    }
    assert_eq!(num(u128::MAX).try_into_u128(), Ok(u128::MAX));
    assert_eq!(LBNum::from_u8(255).try_into_u8(), Ok(255));
    assert_eq!(LBNum::from_u16(65535).try_into_u16(), Ok(65535));
    assert_eq!(LBNum::from_u32(u32::MAX).try_into_u32(), Ok(u32::MAX));
    assert_eq!(LBNum::from_usize(12345).try_into_usize(), Ok(12345));
}

#[test]
fn narrow_conversion_fails() {
    assert_eq!(num(256).try_into_u8(), Err(TryFromIntError));
    assert_eq!(num(1 << 70).try_into_u64(), Err(TryFromIntError));
    let mut big = num(u128::MAX);
    big.increment();
    assert_eq!(big.try_into_u128(), Err(TryFromIntError));
    assert_eq!(big.num_bytes(), 19);
}

#[test]
fn digits_are_canonical() {
    let n = num(16384);
    let digits = n.iter_le();
    assert_eq!(digits.len(), 3);
    assert!(digits[0].is_linked() && digits[1].is_linked() && digits[2].is_end());
    assert_eq!(digits[2].value(), 1);
    assert!(LBNum::check_slice(&digits));
    let be = n.iter_be();
    assert_eq!(be[0].value(), 1);

    let mut d = num(300);
    d.sub_in_place(&num(300));
    assert_eq!(d.num_bytes(), 0);
    let mut e = num(16384);
    e.decrement();
    assert_eq!(e.num_bytes(), 2);
    assert_eq!(val(&e), 16383);
}

#[test]
fn zero_is_empty() {
    assert_eq!(LBNum::zero().num_bytes(), 0);
    assert_eq!(num(0).num_bytes(), 0);
    assert!(LBNum::zero().inner().is_empty());
}

#[test]
fn repair_and_strict_constructors() {
    let raw = LBSequence::from(vec![LinkedByte::from(5), LinkedByte::from(3).into_linked()]);
    let repaired = LBNum::from_sequence(raw.clone());
    assert_eq!(val(&repaired), 5 + 3 * 128);
    assert!(repaired.iter_le()[0].is_linked());
    assert!(repaired.iter_le()[1].is_end());
    assert!(LBNum::try_from_sequence(raw).is_err());

    let top_zero = LBSequence::from(vec![LinkedByte::from(5).into_linked(), LinkedByte::from(0)]);
    assert_eq!(LBNum::try_from_sequence(top_zero.clone()), Err(bigbit::InvalidLBSequence));
    assert_eq!(LBNum::from_sequence(top_zero).num_bytes(), 1);

    let mut v = vec![LinkedByte::from(1), LinkedByte::from(2), LinkedByte::from(3).into_linked()];
    LBNum::fix_in_place(&mut v);
    assert!(LBNum::check_slice(&v));
    assert_eq!(v[2].value(), 3);
}

#[test]
fn add_then_sub_gives_back() {
    let pairs = [(0u128, 0u128), (5, 0), (0, 7), (127, 1), (16383, 1), (123456789, 987654321), (u64::MAX as u128, u64::MAX as u128)];
    for (a, b) in pairs {
        let sum = num(a).add(&num(b));
        assert_eq!(val(&sum), a + b);
        let back = sum.sub(&num(b));
        assert_eq!(back, num(a));
        assert_eq!(back.iter_le(), num(a).iter_le());
    }
}

#[test]
fn checked_sub_refuses_underflow() {
    assert!(num(3).checked_sub(&num(4)).is_none());
    assert_eq!(val(&num(4).checked_sub(&num(4)).unwrap()), 0);
    assert_eq!(val(&num(1000).checked_sub(&num(1)).unwrap()), 999);
}

#[test]
fn increments_and_decrements() {
    let mut n = num(127);
    n.increment();
    assert_eq!(val(&n), 128);
    assert_eq!(n.num_bytes(), 2);
    assert!(n.checked_decrement());
    assert_eq!(val(&n), 127);
    let mut z = LBNum::zero();
    assert!(!z.checked_decrement());
    assert_eq!(z.num_bytes(), 0);

    let mut m = num(5);
    assert!(m.increment_at_index(1));
    assert_eq!(val(&m), 5 + 128);
    assert!(!m.increment_at_index(5));
    assert_eq!(val(&m), 5 + 128);
    assert_eq!(m.decrement_at_index(1), bigbit::lbnum::DecrementResult::Done);
    assert_eq!(val(&m), 5);
    assert_eq!(m.decrement_at_index(3), bigbit::lbnum::DecrementResult::NoSuchIndex);
    assert_eq!(LBNum::zero().decrement_at_index(0), bigbit::lbnum::DecrementResult::EndedWithBorrow);
}

#[test]
fn operators_with_machine_integers() {
    let mut n = LBNum::zero();
    n += 1000u16;
    n += 70000u32;
    n += 5u64;
    n += 6usize;
    n += 7u128;
    n += &num(2);
    assert_eq!(val(&n), 71020);
}

#[test]
fn multiplication() {
    let cases = [(0u128, 5u128), (1, 1), (127, 127), (128, 128), (12345678901234, 98765432), (u64::MAX as u128, u64::MAX as u128)];
    for (a, b) in cases {
        assert_eq!(val(&num(a).mul(&num(b))), a * b);
    }
    let mut m = num(3);
    m.mul_assign(&num(1 << 60));
    assert_eq!(val(&m), 3 << 60);
}

#[test]
fn division_with_remainder() {
    let cases = [(0u128, 7u128), (6, 7), (7, 7), (100, 7), (16384, 128), (u128::MAX, 3), (123456789012345678901234567890, 987654321987)];
    for (a, b) in cases {
        let (q, r) = num(a).div_rem(&num(b));
        assert_eq!(val(&q), a / b);
        assert_eq!(val(&r), a % b);
        assert_eq!(val(&num(a).div(&num(b))), a / b);
        assert_eq!(val(&num(a).rem(&num(b))), a % b);
    }
    let mut n = num(1000);
    let r = n.div_rem_assign(&num(7));
    assert_eq!((val(&n), val(&r)), (142, 6));
}

#[test]
fn greatest_common_divisor() {
    assert_eq!(val(&gcd(num(18), num(12))), 6);
    assert_eq!(val(&gcd(num(12), num(18))), 6);
    assert_eq!(val(&gcd(num(17), num(5))), 1);
    assert_eq!(val(&gcd(num(0), num(9))), 9);
    assert_eq!(val(&gcd(num(9), num(0))), 9);
    assert_eq!(val(&gcd(num(1 << 40), num(1 << 20))), 1 << 20);
}

#[test]
fn total_order() {
    let values = [0u128, 1, 127, 128, 255, 16383, 16384, 1 << 50];
    for a in values {
        for b in values {
            assert_eq!(num(a).compare(&num(b)), a.cmp(&b));
            assert_eq!(num(a) == num(b), a == b);
            assert_eq!(num(a) < num(b), a < b);
            assert_eq!(num(a).partial_cmp(&num(b)), Some(a.cmp(&b)));
        }
    }
    // Same length: the most significant digit decides.
    assert_eq!(num(129 + 2 * 128).compare(&num(127 + 3 * 128)), Ordering::Less);
}

#[test]
fn borrowed_numbers() {
    let digits = vec![LinkedByte::from(5).into_linked(), LinkedByte::from(0)];
    let r = LBNumRef::new(&digits);
    assert_eq!(r.inner().len(), 2);
    assert!(LBNumRef::try_from_slice(&digits).is_ok());
    assert!(LBNumRef::try_from_slice(&[LinkedByte::from(1).into_linked()]).is_err());
    let owned = r.into_owned();
    assert_eq!(owned.num_bytes(), 1);
    assert_eq!(val(&owned), 5);
    let other = vec![LinkedByte::from(9)];
    assert_eq!(r.compare(LBNumRef::new(&other)), Ordering::Greater);
    assert_eq!(val(&r.mul(LBNumRef::new(&other))), 45);
    let n = num(300);
    assert_eq!(n.clone(), n);
    assert_eq!(LBNumRef::from_num(&n).compare(LBNumRef::from_num(&num(300))), Ordering::Equal);
}

#[test]
fn radix_strings() {
    for radix in [2u8, 8, 10, 16, 36] {
        assert_eq!(LBNum::zero().into_string_with_radix(radix), "0");
    }
    assert_eq!(num(255).into_string_with_radix(16), "FF");
    assert_eq!(num(10).into_string_with_radix(2), "1010");
    assert_eq!(num(35).into_string_with_radix(36), "Z");
    assert_eq!(num(36).into_string_with_radix(36), "10");
    assert_eq!(num(u128::MAX).into_string_with_radix(10), u128::MAX.to_string());
    assert_eq!(num(16384).into_string_with_radix(8), "40000");
}
