use bignum::biguint::BigUint;
use bignum::bigint::{BigInt, Sign};

fn mag(digits: &[u32]) -> BigUint {
    BigUint { data: digits.to_vec() }.normalized()
}

#[test]
fn carry_propagates_into_a_new_digit() {
    let a = BigUint::from_u32(0xFFFF_FFFF);
    let b = BigUint::from_u32(1);
    let sum = a.add(&b);
    assert_eq!(sum.data, vec![0u32, 1]);
}

#[test]
fn subtracting_equal_magnitudes_gives_canonical_zero() {
    let a = BigUint::from_u32(5);
    let b = BigUint::from_u32(5);
    let d = a.sub(&b);
    assert!(d.data.is_empty());
    assert!(d.is_zero());
}

#[test]
fn add_then_sub_returns_the_first_operand() {
    let a = mag(&[0xDEAD_BEEF, 0x1234_5678, 7]);
    let b = mag(&[0xFFFF_FFFF, 0xFFFF_FFFF]);
    let sum = a.clone().add(&b);
    let back = sum.sub(&b);
    assert_eq!(back.data, a.data);
}

#[test]
fn addition_commutes() {
    let a = mag(&[0xFFFF_FFFF, 3]);
    let b = mag(&[1, 0, 0xABCD]);
    let ab = a.clone().add(&b);
    let ba = b.clone().add(&a);
    assert_eq!(ab.data, ba.data);
}

#[test]
fn scalar_addition_and_subtraction_across_widths() {
    let a = BigUint::from_u64(0xFFFF_FFFF_FFFF_FFFF);
    let b = a.clone().add_u32(1);
    assert_eq!(b.to_u128(), Some(0x1_0000_0000_0000_0000));
    let c = b.sub_u32(1);
    assert_eq!(c.to_u64(), Some(u64::MAX));
    let d = c.add_u64(u64::MAX);
    assert_eq!(d.to_u128(), Some(2 * u64::MAX as u128));
    let e = d.sub_u64(u64::MAX);
    assert_eq!(e.to_u64(), Some(u64::MAX));
    let f = e.add_u128(u128::MAX - u64::MAX as u128);
    assert_eq!(f.to_u128(), Some(u128::MAX));
    let g = f.sub_u128(u128::MAX);
    assert!(g.is_zero());
    let mut h = BigUint::zero();
    h.add_assign_u32(0);
    assert!(h.is_zero());
}

#[test]
fn checked_sub_reports_underflow() {
    let a = BigUint::from_u32(3);
    let b = BigUint::from_u32(5);
    assert!(a.checked_sub(&b).is_none());
    let d = b.checked_sub(&a).unwrap();
    assert_eq!(d.data, vec![2u32]);
}

#[test]
fn multiplication_matches_wide_machine_product() {
    let a = BigUint::from_u64(0xFFFF_FFFF_FFFF_FFFF);
    let b = BigUint::from_u64(0xFFFF_FFFF_FFFF_FFFF);
    let p = a.mul(&b);
    let expect = 0xFFFF_FFFF_FFFF_FFFFu128 * 0xFFFF_FFFF_FFFF_FFFFu128;
    assert_eq!(p.to_u128(), Some(expect));
    assert_eq!(BigUint::from_u128(expect).data, p.data);
}

#[test]
fn multiplying_by_zero_gives_zero() {
    let a = mag(&[5, 6, 7]);
    let z = BigUint::zero();
    assert!(a.mul(&z).is_zero());
}

#[test]
fn division_recombines_exactly() {
    let a = BigUint::from_u128(0x1234_5678_9ABC_DEF0_1122_3344_5566_7788);
    let b = BigUint::from_u64(0xFEDC_BA98_7654_3210);
    let (q, r) = a.div_rem(&b);
    let av = 0x1234_5678_9ABC_DEF0_1122_3344_5566_7788u128;
    let bv = 0xFEDC_BA98_7654_3210u128;
    assert_eq!(q.to_u128(), Some(av / bv));
    assert_eq!(r.to_u128(), Some(av % bv));
}

#[test]
fn division_by_single_digit() {
    let a = BigUint::from_u64(1_000_000_000_007);
    let b = BigUint::from_u32(97);
    let (q, r) = a.div_rem(&b);
    assert_eq!(q.to_u64(), Some(1_000_000_000_007 / 97));
    assert_eq!(r.to_u64(), Some(1_000_000_000_007 % 97));
}

#[test]
fn checked_div_rejects_zero_divisor() {
    let a = BigUint::from_u32(10);
    assert!(a.checked_div(&BigUint::zero()).is_none());
    assert!(a.checked_div(&BigUint::from_u32(3)).is_some());
}

#[test]
fn signed_truncating_division_rounds_toward_zero() {
    let a = BigInt::from_i64(-7);
    let b = BigInt::from_i64(2);
    let (q, r) = a.div_rem(&b);
    assert_eq!(q.sign, Sign::Minus);
    assert_eq!(q.data.data, vec![3u32]);
    assert_eq!(r.sign, Sign::Minus);
    assert_eq!(r.data.data, vec![1u32]);
}

#[test]
fn signed_euclidean_division_keeps_remainder_nonnegative() {
    let a = BigInt::from_i64(-7);
    let b = BigInt::from_i64(2);
    let (q, r) = a.div_rem_euclid(&b);
    assert_eq!(q.sign, Sign::Minus);
    assert_eq!(q.data.data, vec![4u32]);
    assert_eq!(r.sign, Sign::Plus);
    assert_eq!(r.data.data, vec![1u32]);
}

#[test]
fn truncating_identity_holds_for_all_sign_pairs() {
    for &(a, b) in &[(7i64, 2i64), (-7, 2), (7, -2), (-7, -2), (0, 5), (12, 4)] {
        let ba = BigInt::from_i64(a);
        let bb = BigInt::from_i64(b);
        let (q, r) = ba.div_rem(&bb);
        let back = q.mul(&bb).add(&r);
        assert_eq!(back.sign, ba.sign);
        assert_eq!(back.data.data, ba.data.data);
        assert_eq!(int_val(&q), a / b);
        assert_eq!(int_val(&r), a % b);
    }
}

#[test]
fn euclidean_identity_holds_for_all_sign_pairs() {
    for &(a, b) in &[(7i64, 2i64), (-7, 2), (7, -2), (-7, -2), (0, 5), (13, -4)] {
        let ba = BigInt::from_i64(a);
        let bb = BigInt::from_i64(b);
        let (q, r) = ba.div_rem_euclid(&bb);
        let back = q.mul(&bb).add(&r);
        assert_eq!(back.sign, ba.sign);
        assert_eq!(back.data.data, ba.data.data);
        assert_eq!(int_val(&q), a.div_euclid(b));
        assert_eq!(int_val(&r), a.rem_euclid(b));
        assert_ne!(r.sign, Sign::Minus);
    }
}

#[test]
fn zero_results_carry_no_sign() {
    let a = BigInt::from_i64(-42);
    let z = a.sub(&a.clone());
    assert_eq!(z.sign, Sign::NoSign);
    assert!(z.data.data.is_empty());

    let m = a.mul(&BigInt::zero());
    assert_eq!(m.sign, Sign::NoSign);
}

#[test]
fn signed_addition_dispatches_on_signs() {
    let a = BigInt::from_i64(100);
    let b = BigInt::from_i64(-30);
    assert_eq!(int_val(&a.add(&b)), 70);
    assert_eq!(int_val(&b.add(&a)), 70);
    assert_eq!(int_val(&a.clone().neg().add(&b)), -130);
    assert_eq!(int_val(&a.checked_sub(&b).unwrap()), 130);
}

#[test]
fn signed_multiplication_sign_rule() {
    let a = BigInt::from_i64(-3);
    let b = BigInt::from_i64(-5);
    assert_eq!(int_val(&a.mul(&b)), 15);
    assert_eq!(int_val(&a.mul(&b.clone().neg())), -15);
    assert_eq!(a.checked_mul(&BigInt::zero()).unwrap().sign, Sign::NoSign);
}

#[test]
fn checked_euclid_rejects_zero_divisor() {
    let a = BigInt::from_i64(9);
    let z = BigInt::zero();
    assert!(a.checked_div(&z).is_none());
    assert!(a.checked_rem(&z).is_none());
    assert!(a.checked_div_euclid(&z).is_none());
    assert!(a.checked_rem_euclid(&z).is_none());
    assert!(a.checked_div_rem_euclid(&z).is_none());
    assert!(a.checked_div_rem_euclid(&BigInt::from_i64(4)).is_some());
}

fn int_val(v: &BigInt) -> i64 {
    let m = v.data.to_u64().unwrap() as i64;
    match v.sign {
        Sign::Minus => -m,
        _ => m,
    }
}
