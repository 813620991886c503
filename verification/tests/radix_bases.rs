use bignum::convert::{get_radix_base, get_half_radix_base, generate_radix_bases};

#[test]
fn test_radix_bases() {
    for radix in 3u32..256 {
        if !radix.is_power_of_two() {
            let (base, power) = get_radix_base(radix);
            let radix = u32::from(radix);
            let power = u32::try_from(power).unwrap();
            assert_eq!(base, radix.pow(power));
            assert!(radix.checked_pow(power + 1).is_none());
        }
    }
}

#[test]
fn test_half_radix_bases() {
    for radix in 3u32..256 {
        if !radix.is_power_of_two() {
            let (base, power) = get_half_radix_base(radix);
            let radix = u32::from(radix);
            let power = u32::try_from(power).unwrap();
            assert_eq!(base, radix.pow(power));
            assert!(radix.pow(power + 1) > 65535);
        }
    }
}

#[test]
fn generated_table_matches_single_queries() {
    let full = generate_radix_bases(u32::MAX);
    let half = generate_radix_bases(65535);
    assert_eq!(full.len(), 257);
    assert_eq!(half.len(), 257);
    for radix in 3u32..256 {
        if !radix.is_power_of_two() {
            assert_eq!(full[radix as usize], get_radix_base(radix));
            assert_eq!(half[radix as usize], get_half_radix_base(radix));
        } else {
            assert_eq!(full[radix as usize], (0, 0));
        }
    }
}
