use bigbit::{LBNum, LBSequence, LinkedByte};

/// Overflowing addition: a carry ripples through two digits into a new one.
#[test]
fn lb_add() {
    let mut num = LBNum::try_from_sequence(LBSequence::from(vec![
        LinkedByte::from(41).into_linked(),
        LinkedByte::from(127),
    ]))
    .unwrap();

    num += 87_u8;

    let expected = LBNum::try_from_sequence(LBSequence::from(vec![
        LinkedByte::from(0).into_linked(),
        LinkedByte::from(0).into_linked(),
        LinkedByte::from(1),
    ]))
    .unwrap();
    assert_eq!(num, expected);
}
