use bigbit::{AddAssignAt, AddAt, DivRem, DivRemAssign, Gcd, LBNum};

fn val(n: &LBNum) -> u128 {
    n.try_into_u128().unwrap()
}

#[test]
fn shifted_addition() {
    let n = LBNum::from_u64(5).add_at(2, 3u128);
    assert_eq!(val(&n), 5 + 3 * 128 * 128);
    let mut m = LBNum::from_u64(127);
    m.add_assign_at(0, 1u128);
    assert_eq!(val(&m), 128);
    let mut big = LBNum::zero();
    big.add_assign_at(1, u64::MAX as u128);
    assert_eq!(val(&big), (u64::MAX as u128) * 128);
}

#[test]
fn trait_division_and_gcd() {
    let seven = LBNum::from_u64(7);
    let (q, r) = DivRem::div_rem(LBNum::from_u64(100), &seven);
    assert_eq!((val(&q), val(&r)), (14, 2));
    let mut n = LBNum::from_u64(100);
    let r2 = DivRemAssign::div_rem_assign(&mut n, &seven);
    assert_eq!((val(&n), val(&r2)), (14, 2));
    let g = <LBNum as Gcd<LBNum>>::gcd(LBNum::from_u64(18), LBNum::from_u64(12));
    assert_eq!(val(&g), 6);
}
