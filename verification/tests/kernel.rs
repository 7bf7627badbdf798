use toyrsa::{gcd, mod_inverse, modexp};

// Test for mod inverse
#[test]
fn test_mod_inverse() {
    // Test a valid case
    let a = 3;
    let m = 11;
    assert_eq!(mod_inverse(a, m), Some(4));

    // Test when a is not coprime with m
    let a = 6;
    let m = 9;
    assert_eq!(mod_inverse(a, m), None);

    // Test when m is non-positive
    let a = 7;
    let m = 0;
    assert_eq!(mod_inverse(a, m), None);
}

#[test]
fn test_modexp() {
    // Largest prime less than 2**64.
    let bigm = u64::max_value() - 58;
    assert_eq!(0, modexp(bigm - 2, bigm - 1, 1));
    assert_eq!(1, modexp(bigm - 2, bigm - 1, bigm));
    assert_eq!(827419628471527655, modexp(bigm - 2, (1 << 32) + 1, bigm));
    assert_eq!(4, modexp(10, 9, 6));
    assert_eq!(34, modexp(450, 768, 517));
}

#[test]
fn gcd_of_small_numbers() {
    assert_eq!(gcd(12, 18), 6);
    assert_eq!(gcd(18, 12), 6);
    assert_eq!(gcd(17, 5), 1);
    assert_eq!(gcd(65_537, 3120), 1);
    assert_eq!(gcd(65_537, 65_537 * 12), 65_537);
}

#[test]
fn gcd_with_zero() {
    assert_eq!(gcd(0, 0), 0);
    assert_eq!(gcd(0, 5), 5);
    assert_eq!(gcd(5, 0), 5);
}

#[test]
fn gcd_of_large_numbers() {
    assert_eq!(gcd(u64::MAX, u64::MAX - 1), 1);
    assert_eq!(gcd(u64::MAX, 65_537), 65_537);
    assert_eq!(gcd(1 << 63, 1 << 40), 1 << 40);
}

#[test]
fn inverse_times_number_leaves_one() {
    let moduli: [u64; 6] = [2, 11, 3120, 65_537, 4_611_686_134_391_505_336, u64::MAX - 58];
    for m in moduli {
        for a in [1u64, 3, 7, 17, 65_537, 1_000_003, u64::MAX - 2] {
            match mod_inverse(a, m) {
                Some(x) => {
                    assert!(x < m);
                    assert_eq!((a as u128 * x as u128) % m as u128, 1);
                    assert_eq!(gcd(a, m), 1);
                }
                None => assert_ne!(gcd(a, m), 1),
            }
        }
    }
}

#[test]
fn inverse_exact_values() {
    assert_eq!(mod_inverse(65_537, 3120), Some(2753));
    assert_eq!(mod_inverse(17, 3120), Some(2753));
    assert_eq!(mod_inverse(10, u64::MAX - 58), Some(12_912_720_851_596_686_090));
    assert_eq!(mod_inverse(65_537, 2_316_304_480), Some(2_203_735_553));
}

#[test]
fn inverse_is_reduced_below_the_modulus() {
    // a number above the modulus
    assert_eq!(mod_inverse(14, 11), Some(4));
    // a coefficient that comes out negative
    assert_eq!(mod_inverse(2, 5), Some(3));
    assert_eq!(mod_inverse(1, 5), Some(1));
}

#[test]
fn inverse_modulo_one_is_zero() {
    assert_eq!(mod_inverse(0, 1), Some(0));
    assert_eq!(mod_inverse(1, 1), Some(0));
    assert_eq!(mod_inverse(5, 1), Some(0));
    assert_eq!(mod_inverse(u64::MAX, 1), Some(0));
}

#[test]
fn inverse_absent_without_coprimality() {
    assert_eq!(mod_inverse(0, 9), None);
    assert_eq!(mod_inverse(9, 9), None);
    assert_eq!(mod_inverse(0, 0), None);
    assert_eq!(mod_inverse(65_537, 65_537 * 4), None);
    assert_eq!(mod_inverse((1 << 63) + 1, u64::MAX), None);
}

#[test]
fn inverse_of_the_whole_unsigned_range() {
    assert_eq!(mod_inverse(u64::MAX - 2, 9), Some(7));
    assert_eq!(mod_inverse(65_537, (1 << 63) + 9), Some(6_310_713_421_496_330_354));
    assert_eq!(mod_inverse(u64::MAX, u64::MAX - 1), Some(1));
}

#[test]
fn modexp_zero_exponent() {
    for m in [2u64, 3, 6, 517, 65_537, u64::MAX] {
        for x in [0u64, 1, 2, 450, u64::MAX] {
            assert_eq!(modexp(x, 0, m), 1);
        }
    }
    assert_eq!(modexp(7, 0, 1), 0);
}

#[test]
fn modexp_matches_repeated_multiplication() {
    for m in 1u64..40 {
        for x in 0u64..12 {
            let mut expected = 1 % m;
            for y in 0u64..12 {
                assert_eq!(modexp(x, y, m), expected);
                expected = expected * x % m;
            }
        }
    }
}

#[test]
fn modexp_result_below_modulus() {
    for m in [1u64, 2, 1000, u64::MAX - 58, u64::MAX] {
        for x in [0u64, 5, u64::MAX] {
            for y in [0u64, 1, 2, 65_537, u64::MAX] {
                assert!(modexp(x, y, m) < m);
            }
        }
    }
}

#[test]
fn modexp_does_not_wrap_near_the_top() {
    let top = u64::MAX;
    assert_eq!(modexp(top - 1, 2, top), 1);
    assert_eq!(modexp(top - 1, 3, top), top - 1);
    assert_eq!(modexp((1 << 63) + 5, 3, top), 6_917_529_027_641_082_022);
    assert_eq!(
        modexp(0xfedc_ba98_7654_3210, 0x0123_4567_89ab_cdef, u64::MAX - 58),
        10_464_253_078_750_218_099
    );
}
