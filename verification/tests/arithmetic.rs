use shors_algorithm::{gcd, mod_pow, mul_mod, FactorError};

#[test]
fn mod_pow_4_13_497() {
    assert_eq!(mod_pow(4, 13, 497), Ok(445));
}

#[test]
fn mod_pow_refuses_modulus_zero() {
    assert_eq!(mod_pow(4, 13, 0), Err(FactorError::DegenerateModulus));
    assert_eq!(mod_pow(0, 0, 0), Err(FactorError::DegenerateModulus));
}

#[test]
fn mod_pow_refuses_modulus_one() {
    assert_eq!(mod_pow(4, 13, 1), Err(FactorError::DegenerateModulus));
    assert_eq!(mod_pow(u64::MAX, u64::MAX, 1), Err(FactorError::DegenerateModulus));
}

#[test]
fn mod_pow_exponent_zero_is_one() {
    assert_eq!(mod_pow(7, 0, 13), Ok(1));
    assert_eq!(mod_pow(0, 0, 5), Ok(1));
    assert_eq!(mod_pow(u64::MAX, 0, 2), Ok(1));
}

#[test]
fn mod_pow_base_zero() {
    assert_eq!(mod_pow(0, 5, 7), Ok(0));
}

#[test]
fn mod_pow_exponent_one_reduces_the_base() {
    assert_eq!(mod_pow(100, 1, 7), Ok(2));
    assert_eq!(mod_pow(u64::MAX, 1, 3), Ok(0));
}

#[test]
fn mod_pow_small_table() {
    for m in 2u64..40 {
        for b in 0u64..40 {
            let mut expected: u64 = 1 % m;
            for e in 0u64..12 {
                assert_eq!(mod_pow(b, e, m), Ok(expected), "{}^{} mod {}", b, e, m);
                expected = expected * (b % m) % m;
            }
        }
    }
}

#[test]
fn mod_pow_wide_operands() {
    assert_eq!(mod_pow(1 << 63, 2, u64::MAX), Ok(4_611_686_018_427_387_904));
    assert_eq!(mod_pow(123_456_789, 987_654_321, 1_000_000_007), Ok(652_541_198));
    assert_eq!(
        mod_pow(u64::MAX, u64::MAX, u64::MAX - 58),
        Ok(4_959_809_447_704_153_900)
    );
}

#[test]
fn mod_pow_period_of_three_modulo_77() {
    assert_eq!(mod_pow(3, 30, 77), Ok(1));
    assert_eq!(mod_pow(3, 15, 77), Ok(34));
}

#[test]
fn mul_mod_values() {
    assert_eq!(mul_mod(6, 7, 5), 2);
    assert_eq!(mul_mod(0, 7, 5), 0);
    assert_eq!(mul_mod(u64::MAX, u64::MAX, u64::MAX - 58), 3364);
    assert_eq!(mul_mod(u64::MAX, u64::MAX, 1), 0);
}

#[test]
fn gcd_with_zero() {
    assert_eq!(gcd(12, 0), 12);
    assert_eq!(gcd(0, 12), 12);
    assert_eq!(gcd(0, 0), 0);
    assert_eq!(gcd(u64::MAX, 0), u64::MAX);
}

#[test]
fn gcd_values() {
    assert_eq!(gcd(12, 18), 6);
    assert_eq!(gcd(18, 12), 6);
    assert_eq!(gcd(17, 5), 1);
    assert_eq!(gcd(35, 77), 7);
    assert_eq!(gcd(77, 77), 77);
    assert_eq!(gcd(1, u64::MAX), 1);
    assert_eq!(gcd(u64::MAX, u64::MAX - 1), 1);
    assert_eq!(gcd(1 << 40, 1 << 20), 1 << 20);
}

#[test]
fn gcd_divides_both_and_is_greatest() {
    for a in 0u64..60 {
        for b in 0u64..60 {
            let g = gcd(a, b);
            if a == 0 && b == 0 {
                assert_eq!(g, 0);
                continue;
            }
            assert_eq!(a % g, 0);
            assert_eq!(b % g, 0);
            for d in (g + 1)..=60 {
                assert!(a % d != 0 || b % d != 0, "gcd({}, {})", a, b);
            }
        }
    }
}
