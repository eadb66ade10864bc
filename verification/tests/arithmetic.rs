use satisfactory::bigint::BigInt;
use satisfactory::bignat::BigNat;

fn two_to_the(k: u32) -> BigNat {
    let mut n = BigNat::from_u64(1);
    let mut i: u32 = 0;
    while i < k {
        n = n.mul_add_small(2, 0);
        i += 1;
    }
    n
}

#[test]
fn natural_round_trips_through_u64() {
    assert_eq!(BigNat::zero().to_u64(), Some(0));
    assert_eq!(BigNat::from_u64(0).to_u64(), Some(0));
    assert_eq!(BigNat::from_u64(1).to_u64(), Some(1));
    assert_eq!(BigNat::from_u64(0xffff_ffff).to_u64(), Some(0xffff_ffff));
    assert_eq!(BigNat::from_u64(0x1_0000_0000).to_u64(), Some(0x1_0000_0000));
    assert_eq!(BigNat::from_u64(u64::MAX).to_u64(), Some(u64::MAX));
    assert_eq!(BigNat::from_u128(12345678901234567890).to_u64(), Some(12345678901234567890));
    assert_eq!(BigNat::from_u128(1 << 64).to_u64(), None);
    assert_eq!(BigNat::from_u128(u128::MAX).to_u64(), None);
}

#[test]
fn natural_is_zero_only_for_zero() {
    assert!(BigNat::zero().is_zero());
    assert!(BigNat::from_u64(0).is_zero());
    assert!(!BigNat::from_u64(1).is_zero());
    assert!(!BigNat::from_u128(1 << 100).is_zero());
}

#[test]
fn natural_addition_carries_across_limbs() {
    let a = BigNat::from_u64(0xffff_ffff);
    let b = BigNat::from_u64(1);
    assert_eq!(a.add(&b).to_u64(), Some(0x1_0000_0000));
    let c = BigNat::from_u64(u64::MAX);
    let sum = c.add(&b);
    assert_eq!(sum.to_u64(), None);
    assert_eq!(sum.order(&BigNat::from_u128(1 << 64)), 0);
    assert_eq!(sum.sub(&b).to_u64(), Some(u64::MAX));
}

#[test]
fn natural_subtraction_borrows_across_limbs() {
    let a = BigNat::from_u64(0x1_0000_0000);
    let b = BigNat::from_u64(1);
    assert_eq!(a.sub(&b).to_u64(), Some(0xffff_ffff));
    assert_eq!(a.sub(&a).to_u64(), Some(0));
    let big = BigNat::from_u128((1 << 96) + 5);
    let back = big.sub(&BigNat::from_u128(1 << 96));
    assert_eq!(back.to_u64(), Some(5));
}

#[test]
fn natural_order_is_the_sign_of_the_difference() {
    let small = BigNat::from_u64(41);
    let large = BigNat::from_u128(1 << 70);
    assert_eq!(small.order(&large), -1);
    assert_eq!(large.order(&small), 1);
    assert_eq!(large.order(&large.copy()), 0);
    assert_eq!(BigNat::from_u64(7).order(&BigNat::from_u64(7)), 0);
    assert_eq!(BigNat::from_u64(0x2_0000_0001).order(&BigNat::from_u64(0x1_0000_0002)), 1);
    assert_eq!(BigNat::from_u64(0x1_0000_0002).order(&BigNat::from_u64(0x2_0000_0001)), -1);
}

#[test]
fn natural_multiplication_matches_machine_arithmetic() {
    let a = BigNat::from_u64(123_456_789);
    let b = BigNat::from_u64(987_654_321);
    assert_eq!(a.mul(&b).to_u64(), Some(123_456_789 * 987_654_321));
    assert_eq!(a.mul(&BigNat::zero()).to_u64(), Some(0));
    assert_eq!(a.mul_add_small(1000, 7).to_u64(), Some(123_456_789_007));
    let c = BigNat::from_u64(u64::MAX);
    let square = c.mul(&c);
    let expected = BigNat::from_u128((u64::MAX as u128) * (u64::MAX as u128));
    assert_eq!(square.order(&expected), 0);
}

#[test]
fn natural_shift_multiplies_by_powers_of_the_radix() {
    let a = BigNat::from_u64(5);
    assert_eq!(a.shifted(0).to_u64(), Some(5));
    assert_eq!(a.shifted(1).to_u64(), Some(5 << 32));
    assert_eq!(a.shifted(3).order(&BigNat::from_u128(5 << 96)), 0);
}

#[test]
fn natural_division_gives_quotient_and_remainder() {
    let (q, r) = BigNat::from_u64(100).div_rem(&BigNat::from_u64(7));
    assert_eq!(q.to_u64(), Some(14));
    assert_eq!(r.to_u64(), Some(2));
    let (q, r) = BigNat::from_u64(6).div_rem(&BigNat::from_u64(7));
    assert_eq!(q.to_u64(), Some(0));
    assert_eq!(r.to_u64(), Some(6));
    let (q, r) = BigNat::from_u64(0).div_rem(&BigNat::from_u64(7));
    assert_eq!(q.to_u64(), Some(0));
    assert_eq!(r.to_u64(), Some(0));
    let n = two_to_the(200).add(&BigNat::from_u64(12345));
    let (q, r) = n.div_rem(&two_to_the(150));
    assert_eq!(q.order(&two_to_the(50)), 0);
    assert_eq!(r.to_u64(), Some(12345));
    let (q, r) = BigNat::from_u128(u128::MAX).div_rem(&BigNat::from_u64(u64::MAX));
    assert_eq!(q.order(&BigNat::from_u128((1 << 64) + 1)), 0);
    assert_eq!(r.to_u64(), Some(0));
}

#[test]
fn natural_gcd_is_the_greatest_common_divisor() {
    assert_eq!(BigNat::from_u64(12).gcd(&BigNat::from_u64(18)).to_u64(), Some(6));
    assert_eq!(BigNat::from_u64(18).gcd(&BigNat::from_u64(12)).to_u64(), Some(6));
    assert_eq!(BigNat::from_u64(17).gcd(&BigNat::from_u64(5)).to_u64(), Some(1));
    assert_eq!(BigNat::from_u64(0).gcd(&BigNat::from_u64(5)).to_u64(), Some(5));
    assert_eq!(BigNat::from_u64(5).gcd(&BigNat::from_u64(0)).to_u64(), Some(5));
    assert_eq!(BigNat::from_u64(0).gcd(&BigNat::from_u64(0)).to_u64(), Some(0));
    let a = two_to_the(100).mul(&BigNat::from_u64(9));
    let b = two_to_the(90).mul(&BigNat::from_u64(15));
    assert_eq!(a.gcd(&b).order(&two_to_the(90).mul(&BigNat::from_u64(3))), 0);
}

#[test]
fn integer_round_trips_through_i64() {
    assert_eq!(BigInt::zero().to_i64(), Some(0));
    assert_eq!(BigInt::from_i64(-5).to_i64(), Some(-5));
    assert_eq!(BigInt::from_i64(i64::MAX).to_i64(), Some(i64::MAX));
    assert_eq!(BigInt::from_i64(i64::MIN).to_i64(), Some(i64::MIN));
    assert_eq!(BigInt::from_i128(i64::MAX as i128 + 1).to_i64(), None);
    assert_eq!(BigInt::from_i128(i64::MIN as i128 - 1).to_i64(), None);
    assert_eq!(BigInt::from_i128(i128::MIN).to_i64(), None);
    assert_eq!(BigInt::from_i128(i128::MAX).to_i64(), None);
    assert_eq!(BigInt::from_parts(true, BigNat::from_u64(9)).to_i64(), Some(-9));
    assert_eq!(BigInt::from_parts(true, BigNat::from_u64(0)).to_i64(), Some(0));
}

#[test]
fn integer_signs() {
    assert!(BigInt::from_i64(0).is_zero());
    assert!(!BigInt::from_i64(0).is_negative());
    assert!(BigInt::from_parts(true, BigNat::zero()).is_zero());
    assert!(!BigInt::from_parts(true, BigNat::zero()).is_negative());
    assert!(BigInt::from_i64(-1).is_negative());
    assert!(!BigInt::from_i64(1).is_negative());
    assert_eq!(BigInt::from_i64(-8).abs().to_u64(), Some(8));
    assert_eq!(BigInt::from_i64(8).abs().to_u64(), Some(8));
    assert_eq!(BigInt::from_i64(8).neg().to_i64(), Some(-8));
    assert_eq!(BigInt::from_i64(-8).neg().to_i64(), Some(8));
}

#[test]
fn integer_arithmetic_matches_machine_arithmetic() {
    let values: [i64; 7] = [0, 1, -1, 17, -23, 1_000_000_007, -4_294_967_296];
    for x in values {
        for y in values {
            let a = BigInt::from_i64(x);
            let b = BigInt::from_i64(y);
            assert_eq!(a.add(&b).to_i64(), Some(x + y));
            assert_eq!(a.sub(&b).to_i64(), Some(x - y));
            let product = (x as i128) * (y as i128);
            let expected = if product >= i64::MIN as i128 && product <= i64::MAX as i128 {
                Some(product as i64)
            } else {
                None
            };
            assert_eq!(a.mul(&b).to_i64(), expected);
        }
    }
}

#[test]
fn integer_exact_division() {
    let q = BigInt::from_i64(-84).div_exact(&BigNat::from_u64(7));
    assert_eq!(q.to_i64(), Some(-12));
    let q = BigInt::from_i64(84).div_exact(&BigNat::from_u64(84));
    assert_eq!(q.to_i64(), Some(1));
    let q = BigInt::from_i64(0).div_exact(&BigNat::from_u64(5));
    assert_eq!(q.to_i64(), Some(0));
}

#[test]
fn integer_ceiling_division_rounds_up() {
    let d = BigNat::from_u64(5);
    assert_eq!(BigInt::from_i64(88).ceil_div(&d).to_i64(), Some(18));
    assert_eq!(BigInt::from_i64(90).ceil_div(&d).to_i64(), Some(18));
    assert_eq!(BigInt::from_i64(91).ceil_div(&d).to_i64(), Some(19));
    assert_eq!(BigInt::from_i64(0).ceil_div(&d).to_i64(), Some(0));
    assert_eq!(BigInt::from_i64(1).ceil_div(&d).to_i64(), Some(1));
    assert_eq!(BigInt::from_i64(-1).ceil_div(&d).to_i64(), Some(0));
    assert_eq!(BigInt::from_i64(-5).ceil_div(&d).to_i64(), Some(-1));
    assert_eq!(BigInt::from_i64(-6).ceil_div(&d).to_i64(), Some(-1));
    assert_eq!(BigInt::from_i64(-10).ceil_div(&d).to_i64(), Some(-2));
}
