use bignum::biguint::BigUint;
use bignum::convert::{to_radix_le, to_str_radix_reversed, from_radix_le, from_radix_be,
    high_bits_to_u64};
use bignum::ParseBigIntError;

#[test]
fn parsing_empty_input_reports_the_empty_kind() {
    let s: Vec<u8> = Vec::new();
    assert!(matches!(BigUint::from_str_radix(&s, 10), Err(ParseBigIntError::Empty)));
    assert!(matches!(BigUint::from_str_radix(&b"+".to_vec(), 10),
        Err(ParseBigIntError::Empty)));
}

#[test]
fn parsing_a_digit_outside_the_radix_reports_invalid() {
    assert!(matches!(BigUint::from_str_radix(&b"9".to_vec(), 8),
        Err(ParseBigIntError::InvalidDigit)));
    assert!(matches!(BigUint::from_str_radix(&b"12a".to_vec(), 10),
        Err(ParseBigIntError::InvalidDigit)));
    assert!(matches!(BigUint::from_str_radix(&b"_1".to_vec(), 10),
        Err(ParseBigIntError::InvalidDigit)));
    assert!(matches!(BigUint::from_str_radix(&b"++1".to_vec(), 10),
        Err(ParseBigIntError::InvalidDigit)));
}

#[test]
fn formatting_zero_yields_one_zero_character_in_every_radix() {
    for radix in 2u32..=36 {
        let z = BigUint::zero();
        assert_eq!(to_str_radix_reversed(&z, radix), b"0".to_vec());
        assert_eq!(to_radix_le(&z, radix), vec![0u8]);
    }
}

#[test]
fn parsing_accepts_plus_and_separators() {
    let v = BigUint::from_str_radix(&b"+1_000".to_vec(), 10).unwrap();
    assert_eq!(v.to_u64(), Some(1000));
    let v = BigUint::from_str_radix(&b"ff".to_vec(), 16).unwrap();
    assert_eq!(v.to_u64(), Some(255));
    let v = BigUint::from_str_radix(&b"FF".to_vec(), 16).unwrap();
    assert_eq!(v.to_u64(), Some(255));
    let v = BigUint::from_str(&b"12345678901234567890".to_vec()).unwrap();
    assert_eq!(v.to_u128(), Some(12345678901234567890));
}

#[test]
fn formatting_known_values() {
    let v = BigUint::from_u32(255);
    assert_eq!(to_str_radix_reversed(&v, 16), b"ff".to_vec());
    assert_eq!(to_str_radix_reversed(&v, 2), b"11111111".to_vec());
    let v = BigUint::from_u32(1000);
    let mut s = to_str_radix_reversed(&v, 10);
    s.reverse();
    assert_eq!(s, b"1000".to_vec());
}

#[test]
fn string_round_trip_in_every_radix() {
    let samples: [u128; 5] = [
        0,
        1,
        0xFFFF_FFFF,
        0x1_0000_0001,
        0x1234_5678_9ABC_DEF0_1122_3344_5566_7788,
    ];
    for radix in 2u32..=36 {
        for &x in &samples {
            let v = BigUint::from_u128(x);
            let mut s = to_str_radix_reversed(&v, radix);
            s.reverse();
            let back = BigUint::from_str_radix(&s, radix).unwrap();
            assert_eq!(back.to_u128(), Some(x));
        }
    }
}

#[test]
fn byte_radix_round_trip_in_every_radix() {
    let samples: [u128; 4] = [
        0,
        0xFFFF_FFFF_FFFF_FFFF,
        0x1_0000_0000_0000_0000,
        0xFEDC_BA98_7654_3210_0123_4567_89AB_CDEF,
    ];
    for radix in 2u32..=256 {
        for &x in &samples {
            let v = BigUint::from_u128(x);
            let le = to_radix_le(&v, radix);
            let back = from_radix_le(&le, radix).unwrap();
            assert_eq!(back.to_u128(), Some(x));
            let mut be = le.clone();
            be.reverse();
            let back = from_radix_be(&be, radix).unwrap();
            assert_eq!(back.to_u128(), Some(x));
        }
    }
}

#[test]
fn raw_digit_import_rejects_out_of_range_bytes() {
    assert!(from_radix_le(&vec![1, 7, 3], 7).is_none());
    assert!(from_radix_be(&vec![9], 9).is_none());
    assert_eq!(from_radix_le(&Vec::new(), 10).unwrap().to_u64(), Some(0));
}

#[test]
fn raw_digit_import_known_values() {
    // 3 * 100 + 2 * 10 + 1 in little-endian decimal digits
    let v = from_radix_le(&vec![1, 2, 3], 10).unwrap();
    assert_eq!(v.to_u64(), Some(321));
    let v = from_radix_be(&vec![1, 2, 3], 10).unwrap();
    assert_eq!(v.to_u64(), Some(123));
    // base 256 reads raw bytes
    let v = from_radix_be(&vec![1, 0], 256).unwrap();
    assert_eq!(v.to_u64(), Some(256));
}

#[test]
fn primitive_conversions_round_trip() {
    assert_eq!(BigUint::from_u64(u64::MAX).to_u64(), Some(u64::MAX));
    assert_eq!(BigUint::from_u128(u64::MAX as u128 + 1).to_u64(), None);
    assert_eq!(BigUint::from_u128(u128::MAX).to_u128(), Some(u128::MAX));
    assert_eq!(BigUint::from_u64(1 << 63).to_i64(), None);
    assert_eq!(BigUint::from_u64(i64::MAX as u64).to_i64(), Some(i64::MAX));
    assert!(BigUint::from_i64(-1).is_none());
    assert_eq!(BigUint::from_i128(42).unwrap().to_u64(), Some(42));
    assert_eq!(BigUint::from_u32(7).to_biguint().unwrap().to_u64(), Some(7));
}

#[test]
fn bit_length_of_known_values() {
    assert_eq!(BigUint::zero().bits(), 0);
    assert_eq!(BigUint::from_u32(1).bits(), 1);
    assert_eq!(BigUint::from_u32(0xFFFF_FFFF).bits(), 32);
    assert_eq!(BigUint::from_u64(1 << 32).bits(), 33);
    assert_eq!(BigUint::from_u128(1u128 << 100).bits(), 101);
}

#[test]
fn large_magnitudes_take_the_two_level_export_and_round_trip() {
    // enough digits to cross the two-level threshold
    let mut digits: Vec<u32> = Vec::new();
    for i in 0..80u32 {
        digits.push(i.wrapping_mul(0x9E37_79B9) ^ 0x5555_5555);
    }
    digits.push(1);
    let v = BigUint { data: digits }.normalized();
    for radix in [10u32, 3, 255] {
        let le = to_radix_le(&v, radix);
        assert!(*le.last().unwrap() != 0);
        assert!(le.iter().all(|&d| (d as u32) < radix));
        let back = from_radix_le(&le, radix).unwrap();
        assert_eq!(back.data, v.data);
    }
    let mut s = to_str_radix_reversed(&v, 10);
    s.reverse();
    let back = BigUint::from_str_radix(&s, 10).unwrap();
    assert_eq!(back.data, v.data);
}

#[test]
fn high_bits_keep_the_top_window_and_round_to_odd() {
    // values that already fit come back whole
    assert_eq!(high_bits_to_u64(&BigUint::from_u64(12345)), 12345);
    assert_eq!(high_bits_to_u64(&BigUint::from_u64(u64::MAX)), u64::MAX);
    // 65 bits, dropped bit zero: plain shift
    let v = BigUint::from_u128(0xFFFF_FFFF_FFFF_FFFE << 1);
    assert_eq!(high_bits_to_u64(&v), 0xFFFF_FFFF_FFFF_FFFE);
    // 81 bits with a lost set bit below an even window: LSB is forced on
    let x: u128 = (1u128 << 80) | 1;
    let v = BigUint::from_u128(x);
    assert_eq!(high_bits_to_u64(&v), (1u64 << 63) | 1);
    // lost bits below an odd window leave it alone
    let x: u128 = (1u128 << 80) | (1u128 << 17) | 1;
    let v = BigUint::from_u128(x);
    assert_eq!(high_bits_to_u64(&v), (1u64 << 63) | 1);
}
