use std::collections::HashSet;

use shors_algorithm::{
    extract_factor, factorize, half_even_period, period_factor, trial_factor, try_witness,
    FactorError, PrimeOracle, Strategy,
};

const PERIOD: Strategy = Strategy::PeriodFinding { witness_limit: 60 };

fn set(items: &[u64]) -> HashSet<u64> {
    items.iter().copied().collect()
}

fn naive_is_prime(n: u64) -> bool {
    n >= 2 && (2..n).take_while(|d| d * d <= n).all(|d| n % d != 0)
}

fn naive_factor_set(n: u64) -> HashSet<u64> {
    if n <= 1 {
        return set(&[n]);
    }
    (2..=n).filter(|p| n % p == 0 && naive_is_prime(*p)).collect()
}

/// The product of the members of `factors`, each as often as it divides `n`.
fn product_with_multiplicity(n: u64, factors: &HashSet<u64>) -> u64 {
    let mut product: u64 = 1;
    for &p in factors {
        if p < 2 {
            continue;
        }
        let mut rest = n;
        while rest % p == 0 {
            rest /= p;
            product *= p;
        }
    }
    product
}

#[test]
fn factorize_13() {
    let mut oracle = PrimeOracle::new();
    assert_eq!(factorize(13, PERIOD, &mut oracle), Ok(set(&[13])));
    assert_eq!(factorize(13, Strategy::TrialDivision, &mut oracle), Ok(set(&[13])));
}

#[test]
fn factorize_77() {
    let mut oracle = PrimeOracle::new();
    assert_eq!(factorize(77, PERIOD, &mut oracle), Ok(set(&[7, 11])));
    assert_eq!(factorize(77, Strategy::TrialDivision, &mut oracle), Ok(set(&[7, 11])));
}

#[test]
fn factorize_92349678913456() {
    let n: u64 = 92_349_678_913_456;
    let mut oracle = PrimeOracle::new();
    let factors = factorize(n, Strategy::TrialDivision, &mut oracle).unwrap();
    assert!(factors.contains(&2));
    assert_eq!(product_with_multiplicity(n, &factors), n);
    assert_eq!(factors, set(&[2, 53, 281, 911, 425_417]));
}

#[test]
fn factorize_1() {
    let mut oracle = PrimeOracle::new();
    assert_eq!(factorize(1, PERIOD, &mut oracle), Ok(set(&[1])));
    assert_eq!(factorize(1, Strategy::TrialDivision, &mut oracle), Ok(set(&[1])));
}

#[test]
fn factorize_0() {
    let mut oracle = PrimeOracle::new();
    assert_eq!(factorize(0, PERIOD, &mut oracle), Ok(set(&[0])));
    assert_eq!(factorize(0, Strategy::TrialDivision, &mut oracle), Ok(set(&[0])));
}

#[test]
fn factorize_2() {
    let mut oracle = PrimeOracle::new();
    assert_eq!(factorize(2, PERIOD, &mut oracle), Ok(set(&[2])));
}

#[test]
fn factorize_powers_of_two() {
    let mut oracle = PrimeOracle::new();
    for k in 2u32..64 {
        assert_eq!(factorize(1u64 << k, PERIOD, &mut oracle), Ok(set(&[2])), "2^{}", k);
    }
}

#[test]
fn factorize_even_with_prime_odd_part() {
    let mut oracle = PrimeOracle::new();
    assert_eq!(factorize(26, PERIOD, &mut oracle), Ok(set(&[2, 13])));
    assert_eq!(factorize(48, PERIOD, &mut oracle), Ok(set(&[2, 3])));
    assert_eq!(factorize(2 * 1_000_003, PERIOD, &mut oracle), Ok(set(&[2, 1_000_003])));
}

#[test]
fn factorize_even_with_composite_odd_part() {
    let mut oracle = PrimeOracle::new();
    assert_eq!(factorize(8 * 77, PERIOD, &mut oracle), Ok(set(&[2, 7, 11])));
    assert_eq!(factorize(2 * 3233, PERIOD, &mut oracle), Ok(set(&[2, 53, 61])));
    assert_eq!(factorize(360, Strategy::TrialDivision, &mut oracle), Ok(set(&[2, 3, 5])));
}

#[test]
fn factorize_by_period_finding() {
    let mut oracle = PrimeOracle::new();
    assert_eq!(factorize(15, PERIOD, &mut oracle), Ok(set(&[3, 5])));
    assert_eq!(factorize(21, PERIOD, &mut oracle), Ok(set(&[3, 7])));
    assert_eq!(factorize(105, PERIOD, &mut oracle), Ok(set(&[3, 5, 7])));
    assert_eq!(factorize(1155, PERIOD, &mut oracle), Ok(set(&[3, 5, 7, 11])));
    assert_eq!(factorize(3233, PERIOD, &mut oracle), Ok(set(&[53, 61])));
    let wider = Strategy::PeriodFinding { witness_limit: 200 };
    assert_eq!(factorize(15_015, wider, &mut oracle), Ok(set(&[3, 5, 7, 11, 13])));
}

#[test]
fn factorize_runs_out_of_witnesses_on_prime_powers() {
    let mut oracle = PrimeOracle::new();
    for n in [9u64, 25, 27, 49, 81, 121, 125] {
        assert_eq!(
            factorize(n, PERIOD, &mut oracle),
            Err(FactorError::WitnessesExhausted),
            "{}",
            n
        );
    }
    assert_eq!(factorize(18, PERIOD, &mut oracle), Err(FactorError::WitnessesExhausted));
    assert_eq!(factorize(45, PERIOD, &mut oracle), Err(FactorError::WitnessesExhausted));
}

#[test]
fn factorize_by_trial_division_always_answers() {
    let mut oracle = PrimeOracle::new();
    for n in [9u64, 25, 27, 45, 49, 81, 99, 121, 125, 18] {
        assert_eq!(
            factorize(n, Strategy::TrialDivision, &mut oracle),
            Ok(naive_factor_set(n)),
            "{}",
            n
        );
    }
}

#[test]
fn factorize_witness_limit_decides() {
    let mut oracle = PrimeOracle::new();
    // 8 is the first witness that splits 21, 4 the first that splits 15.
    let short = Strategy::PeriodFinding { witness_limit: 7 };
    let enough = Strategy::PeriodFinding { witness_limit: 8 };
    assert_eq!(factorize(21, short, &mut oracle), Err(FactorError::WitnessesExhausted));
    assert_eq!(factorize(21, enough, &mut oracle), Ok(set(&[3, 7])));
    assert_eq!(factorize(15, short, &mut oracle), Ok(set(&[3, 5])));
    let none = Strategy::PeriodFinding { witness_limit: 2 };
    assert_eq!(factorize(15, none, &mut oracle), Err(FactorError::WitnessesExhausted));
    let three = Strategy::PeriodFinding { witness_limit: 3 };
    assert_eq!(factorize(15, three, &mut oracle), Err(FactorError::WitnessesExhausted));
    assert_eq!(factorize(77, three, &mut oracle), Ok(set(&[7, 11])));
}

#[test]
fn factorize_round_trip() {
    let mut oracle = PrimeOracle::new();
    for n in 1u64..3000 {
        let factors = factorize(n, Strategy::TrialDivision, &mut oracle).unwrap();
        assert_eq!(product_with_multiplicity(n, &factors), n, "{}", n);
        if n >= 2 {
            assert!(factors.iter().all(|p| naive_is_prime(*p)), "{}", n);
        }
    }
}

#[test]
fn factorize_round_trip_by_period_finding() {
    let mut oracle = PrimeOracle::new();
    let mut answered = 0;
    for n in 1u64..700 {
        if let Ok(factors) = factorize(n, PERIOD, &mut oracle) {
            assert_eq!(product_with_multiplicity(n, &factors), n, "{}", n);
            assert_eq!(factors, naive_factor_set(n), "{}", n);
            answered += 1;
        }
    }
    assert!(answered > 500);
}

#[test]
fn trial_factor_boundary_values() {
    let mut oracle = PrimeOracle::new();
    assert_eq!(trial_factor(0, &mut oracle), set(&[0]));
    assert_eq!(trial_factor(1, &mut oracle), set(&[1]));
    assert_eq!(trial_factor(2, &mut oracle), set(&[2]));
    assert_eq!(trial_factor(3, &mut oracle), set(&[3]));
    assert_eq!(trial_factor(4, &mut oracle), set(&[2]));
}

#[test]
fn trial_factor_values() {
    let mut oracle = PrimeOracle::new();
    assert_eq!(trial_factor(97, &mut oracle), set(&[97]));
    assert_eq!(trial_factor(1024, &mut oracle), set(&[2]));
    assert_eq!(trial_factor(360, &mut oracle), set(&[2, 3, 5]));
    assert_eq!(trial_factor(1001, &mut oracle), set(&[7, 11, 13]));
    assert_eq!(trial_factor(3233, &mut oracle), set(&[53, 61]));
    assert_eq!(trial_factor(3 * 3 * 3 * 7 * 7, &mut oracle), set(&[3, 7]));
    assert_eq!(trial_factor(1_000_006_000_009, &mut oracle), set(&[1_000_003]));
    assert_eq!(trial_factor(999_985_999_949, &mut oracle), set(&[999_983, 1_000_003]));
}

#[test]
fn trial_factor_largest_word() {
    let mut oracle = PrimeOracle::new();
    assert_eq!(
        trial_factor(u64::MAX, &mut oracle),
        set(&[3, 5, 17, 257, 641, 65_537, 6_700_417])
    );
}

#[test]
fn trial_factor_agrees_with_definition() {
    let mut oracle = PrimeOracle::new();
    for n in 0u64..1500 {
        assert_eq!(trial_factor(n, &mut oracle), naive_factor_set(n), "{}", n);
    }
}

#[test]
fn half_even_period_values() {
    // 3 has order 30 modulo 77, 4 has order 2 modulo 15, 8 order 2 modulo 21.
    assert_eq!(half_even_period(77, 3), 15);
    assert_eq!(half_even_period(15, 4), 1);
    assert_eq!(half_even_period(21, 8), 1);
    // 2 has the odd order 3 modulo 7: the even period is 6.
    assert_eq!(half_even_period(7, 2), 3);
    // A witness above the modulus counts by its residue.
    assert_eq!(half_even_period(77, 80), 15);
    assert_eq!(half_even_period(2, 1), 1);
}

#[test]
fn extract_factor_values() {
    let mut oracle = PrimeOracle::new();
    // gcd(35, 77) = 7, and 77 / 7 = 11 is prime.
    assert_eq!(extract_factor(77, 34, &mut oracle), Some(11));
    // gcd(77, 77) = 77 and gcd(1, 77) = 1 are no proper divisors.
    assert_eq!(extract_factor(77, 76, &mut oracle), None);
    assert_eq!(extract_factor(77, 0, &mut oracle), None);
    // gcd(21, 105) = 21 leaves the prime 5; gcd(3, 105) = 3 leaves 35.
    assert_eq!(extract_factor(105, 20, &mut oracle), Some(5));
    assert_eq!(extract_factor(105, 2, &mut oracle), None);
    assert_eq!(extract_factor(1, 0, &mut oracle), None);
}

#[test]
fn try_witness_values() {
    let mut oracle = PrimeOracle::new();
    assert_eq!(try_witness(77, 3, &mut oracle), Some(11));
    assert_eq!(try_witness(77, 4, &mut oracle), None);
    assert_eq!(try_witness(77, 5, &mut oracle), Some(11));
    assert_eq!(try_witness(77, 6, &mut oracle), None);
    assert_eq!(try_witness(21, 8, &mut oracle), Some(7));
    assert_eq!(try_witness(15, 4, &mut oracle), Some(3));
}

#[test]
fn try_witness_refuses_a_common_factor() {
    let mut oracle = PrimeOracle::new();
    assert_eq!(try_witness(77, 7, &mut oracle), None);
    assert_eq!(try_witness(77, 22, &mut oracle), None);
    assert_eq!(try_witness(77, 0, &mut oracle), None);
    assert_eq!(try_witness(77, 77, &mut oracle), None);
}

#[test]
fn period_factor_values() {
    let mut oracle = PrimeOracle::new();
    assert_eq!(period_factor(77, 60, &mut oracle), Ok(set(&[7, 11])));
    assert_eq!(period_factor(15, 60, &mut oracle), Ok(set(&[3, 5])));
    assert_eq!(period_factor(3233, 60, &mut oracle), Ok(set(&[53, 61])));
    assert_eq!(period_factor(15_015, 200, &mut oracle), Ok(set(&[3, 5, 7, 11, 13])));
}

#[test]
fn period_factor_runs_out_of_witnesses() {
    let mut oracle = PrimeOracle::new();
    assert_eq!(period_factor(9, 60, &mut oracle), Err(FactorError::WitnessesExhausted));
    assert_eq!(period_factor(99, 60, &mut oracle), Err(FactorError::WitnessesExhausted));
    assert_eq!(period_factor(77, 0, &mut oracle), Err(FactorError::WitnessesExhausted));
    assert_eq!(period_factor(77, 2, &mut oracle), Err(FactorError::WitnessesExhausted));
    // 101 is the first witness that splits 15015.
    assert_eq!(period_factor(15_015, 100, &mut oracle), Err(FactorError::WitnessesExhausted));
}

#[test]
fn strategies_agree_on_odd_composites() {
    let mut oracle = PrimeOracle::new();
    let mut answered = 0;
    let mut n: u64 = 9;
    while n < 1200 {
        if !naive_is_prime(n) {
            let by_trial = trial_factor(n, &mut oracle);
            if let Ok(by_period) = period_factor(n, 60, &mut oracle) {
                assert_eq!(by_period, by_trial, "{}", n);
                answered += 1;
            }
        }
        n += 2;
    }
    assert!(answered > 200);
}

#[test]
fn factorizers_fill_the_cache_of_the_oracle() {
    let mut oracle = PrimeOracle::new();
    assert_eq!(oracle.cached(77), None);
    let _ = factorize(77, PERIOD, &mut oracle);
    assert_eq!(oracle.cached(77), Some(false));
    assert_eq!(oracle.cached(7), Some(true));
}
