use bigbit::{Exponent, HBNum, HeadByte, InvalidExponentError, Sign};

#[test]
fn infinity_has_no_exponent() {
    let hb = HeadByte::from(0b0100_0000);
    assert!(hb.is_infinite());
    assert!(!hb.has_exponent());
    assert!(hb.exponent_bit());
    assert!(HeadByte::neg_infinity().is_infinite());
    assert_eq!(HeadByte::neg_infinity().sign(), Sign::Negative);
}

#[test]
fn reserved_headers() {
    assert!(HeadByte::nan_value().is_nan());
    assert!(!HeadByte::zero().is_nan());
    assert!(!HeadByte::from(0x81).is_nan());
    assert_eq!(HeadByte::zero().into_inner(), 0);
    assert_eq!(HeadByte::infinity().into_inner(), 0x40);
    assert_eq!(u8::from(HeadByte::nan_value()), 0x80);
}

#[test]
fn header_fields() {
    let hb = HeadByte::from(0b1100_0101);
    assert_eq!(hb.sign(), Sign::Negative);
    assert_eq!(hb.abs().into_inner(), 0b0100_0101);
    assert!(hb.has_exponent());
    assert_eq!(hb.num_bytes(), 5);
    assert_eq!(hb.num_coefficients(), 4);
    assert_eq!(HeadByte::infinity().num_coefficients(), 0);
    assert_eq!(HeadByte::from(0x41).num_coefficients(), 0);
    assert_eq!(hb.with_exponent_bit(false).into_inner(), 0b1000_0101);
    assert_eq!(HeadByte::from(0b0000_0101).with_exponent_bit(true).into_inner(), 0b0100_0101);
    assert_eq!(hb.with_num_bytes(63).into_inner(), 0b1111_1111);
    assert_eq!(hb.with_num_coefficients(2).num_bytes(), 3);
    let mut m = HeadByte::from(0b0000_0001);
    m.set_num_bytes(9);
    m.set_exponent_bit(true);
    assert_eq!(m.into_inner(), 0b0100_1001);
    m.set_num_coefficients(1);
    assert_eq!(m.num_bytes(), 2);
}

#[test]
fn header_negation() {
    assert_eq!(HeadByte::from(0x05).neg().into_inner(), 0x85);
    assert_eq!(HeadByte::from(0x85).neg().into_inner(), 0x05);
    assert_eq!(HeadByte::nan_value().neg(), HeadByte::nan_value());
    assert_eq!(HeadByte::zero().neg(), HeadByte::zero());
    assert_eq!(HeadByte::infinity().neg(), HeadByte::neg_infinity());
    assert_eq!(-HeadByte::from(0x43), HeadByte::from(0xc3));
    assert_eq!(-HeadByte::nan_value(), HeadByte::nan_value());
}

#[test]
fn exponent_negative_zero_is_rejected() {
    assert_eq!(Exponent::try_from_u8(0x80), Err(InvalidExponentError));
    assert_eq!(Exponent::try_from_u8(0x00).unwrap().into_inner(), 0);
    assert_eq!(Exponent::try_from_u8(0xff).unwrap().into_inner(), 0xff);
    assert_eq!(Exponent::from_u8_unchecked(0x82).into_inner(), 0x82);
}

#[test]
fn exponent_arithmetic() {
    let e = |b: u8| Exponent::try_from_u8(b).unwrap();
    assert_eq!(e(0x82).sign(), Sign::Negative);
    assert_eq!(e(0x02).sign(), Sign::Positive);
    assert_eq!(e(0x85).abs().into_inner(), 0x05);
    assert_eq!(e(0x05).invert().into_inner(), 0x85);
    assert_eq!(e(0x00).invert().into_inner(), 0x00);
    // 2 + 3 = 5, -2 + -3 = -5, 2 + -5 = -3
    assert_eq!(e(0x02).checked_mul(e(0x03)).unwrap().into_inner(), 0x05);
    assert_eq!(e(0x82).checked_mul(e(0x83)).unwrap().into_inner(), 0x85);
    assert_eq!(e(0x02).checked_mul(e(0x85)).unwrap().into_inner(), 0x83);
    assert_eq!(e(100).checked_mul(e(100)), None);
    assert_eq!(e(0x05).checked_div(e(0x05)).unwrap().into_inner(), 0x00);
    assert_eq!(e(0x81 | 100).checked_div(e(100)), None);
}

#[test]
fn decimal_number_parts() {
    let exponent = Exponent::try_from_u8(0x02).unwrap();
    let n = HBNum::from_raw_parts(HeadByte::zero(), Some(exponent), vec![5]);
    let hb = n.headbyte();
    assert_eq!(hb.sign(), Sign::Positive);
    assert!(hb.has_exponent());
    assert_eq!(hb.num_bytes(), 2);
    assert_eq!(hb.num_coefficients(), 1);
    let coefficient = n.coefficient_be_iter().iter().fold(0u64, |acc, b| acc * 256 + *b as u64);
    let power = n.exponent().unwrap().into_inner() as u32;
    assert_eq!(coefficient * 10u64.pow(power), 500);
}

#[test]
fn decimal_number_counts_follow_data() {
    let n = HBNum::from_raw_parts(HeadByte::from(0xff), None, vec![1, 2, 3]);
    assert_eq!(n.headbyte().into_inner(), 0b1000_0011);
    assert!(n.exponent().is_none());
    assert_eq!(n.coefficient_be_iter(), vec![1, 2, 3]);
    assert_eq!(n.coefficient_le_iter(), vec![3, 2, 1]);
    let c = n.clone();
    assert_eq!(c.headbyte(), n.headbyte());
    assert_eq!(c.coefficient_be_iter(), vec![1, 2, 3]);
    assert!(bool::from(Sign::from(true)));
}
