use shors_algorithm::{is_prime_trial, PrimeOracle};

fn divides_none_up_to_root(n: u64) -> bool {
    if n < 2 {
        return false;
    }
    let mut d: u64 = 2;
    while d * d <= n {
        if n % d == 0 {
            return false;
        }
        d += 1;
    }
    true
}

#[test]
fn is_prime_3233_is_composite() {
    let mut oracle = PrimeOracle::new();
    assert!(!oracle.is_prime(3233));
    assert_eq!(3233, 53 * 61);
}

#[test]
fn is_prime_below_two_is_false() {
    let mut oracle = PrimeOracle::new();
    assert!(!oracle.is_prime(0));
    assert!(!oracle.is_prime(1));
}

#[test]
fn is_prime_two_is_the_only_even_prime() {
    let mut oracle = PrimeOracle::new();
    assert!(oracle.is_prime(2));
    for n in [4u64, 6, 8, 10, 100, 1 << 40, u64::MAX - 1] {
        assert!(!oracle.is_prime(n), "{}", n);
    }
}

#[test]
fn is_prime_small_primes_and_their_multiples() {
    let mut oracle = PrimeOracle::new();
    for p in [3u64, 5, 7] {
        assert!(oracle.is_prime(p));
    }
    for n in [9u64, 15, 21, 25, 27, 35, 49, 63, 105, 3 * 1_000_003, 7 * 999_983] {
        assert!(!oracle.is_prime(n), "{}", n);
    }
}

#[test]
fn is_prime_first_wheel_candidates() {
    let mut oracle = PrimeOracle::new();
    for p in [11u64, 13, 17, 19, 23, 29, 31, 37, 41, 43, 47, 53, 59, 61] {
        assert!(oracle.is_prime(p), "{}", p);
    }
    for n in [121u64, 143, 169, 187, 209, 221, 11 * 11 * 11, 13 * 17 * 19] {
        assert!(!oracle.is_prime(n), "{}", n);
    }
}

#[test]
fn is_prime_perfect_squares_of_primes() {
    let mut oracle = PrimeOracle::new();
    for p in [11u64, 13, 17, 19, 23, 29, 31, 97, 101, 1009, 65_537, 1_000_003] {
        assert!(!oracle.is_prime(p * p), "{}", p * p);
    }
    assert!(!oracle.is_prime(1_000_006_000_009));
}

#[test]
fn is_prime_neighbours_of_squares() {
    let mut oracle = PrimeOracle::new();
    // 10007 is prime; 10007 * 10009 sits just below a square, 10007^2 on one.
    assert!(oracle.is_prime(10_007));
    assert!(oracle.is_prime(10_009));
    assert!(!oracle.is_prime(10_007 * 10_007));
    assert!(!oracle.is_prime(10_007 * 10_009));
    assert_eq!(10_007 * 10_009, 100_160_063);
    assert!(!oracle.is_prime(100_160_063));
    assert!(oracle.is_prime(100_160_069));
}

#[test]
fn is_prime_large_values() {
    let mut oracle = PrimeOracle::new();
    assert!(oracle.is_prime(999_983));
    assert!(oracle.is_prime(1_000_003));
    assert!(!oracle.is_prime(999_985_999_949));
    assert!(oracle.is_prime(2_147_483_647));
    assert!(!oracle.is_prime(u64::MAX));
}

#[test]
fn is_prime_agrees_with_trial_division() {
    let mut oracle = PrimeOracle::new();
    for n in 0u64..6000 {
        assert_eq!(oracle.is_prime(n), divides_none_up_to_root(n), "{}", n);
    }
    for n in 1_000_000u64..1_000_400 {
        assert_eq!(oracle.is_prime(n), divides_none_up_to_root(n), "{}", n);
    }
}

#[test]
fn is_prime_trial_agrees_with_trial_division() {
    for n in 0u64..3000 {
        assert_eq!(is_prime_trial(n), divides_none_up_to_root(n), "{}", n);
    }
}

#[test]
fn oracle_starts_empty() {
    let oracle = PrimeOracle::new();
    assert_eq!(oracle.cached(2), None);
    assert_eq!(oracle.cached(3233), None);
}

#[test]
fn oracle_stores_each_verdict() {
    let mut oracle = PrimeOracle::new();
    assert!(oracle.is_prime(97));
    assert!(!oracle.is_prime(91));
    assert_eq!(oracle.cached(97), Some(true));
    assert_eq!(oracle.cached(91), Some(false));
    assert_eq!(oracle.cached(89), None);
}

#[test]
fn oracle_answers_twice_alike() {
    let mut oracle = PrimeOracle::new();
    for n in [0u64, 1, 2, 3233, 7919, 1_000_003, 1_000_006_000_009] {
        let first = oracle.is_prime(n);
        let held = oracle.cached(n);
        let second = oracle.is_prime(n);
        assert_eq!(first, second, "{}", n);
        assert_eq!(held, Some(first));
        assert_eq!(oracle.cached(n), held);
    }
}

#[test]
fn oracles_do_not_share_a_cache() {
    let mut first = PrimeOracle::new();
    let second = PrimeOracle::new();
    assert!(first.is_prime(13));
    assert_eq!(first.cached(13), Some(true));
    assert_eq!(second.cached(13), None);
}
