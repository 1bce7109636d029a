//! The entry point: fast paths for small numbers, primes and the factor 2,
//! then the chosen strategy on what is left.

use std::collections::HashSet;
use vstd::prelude::*;
use vstd::map_lib::lemma_submap_of_trans;
use crate::divisibility::{is_prime_spec, lemma_small_primes};
use crate::error::FactorError;
use crate::factors::{factor_set, lemma_factor_set_of_prime};
use crate::multiplicity::{lemma_round_trip, power_product};
use crate::oracle::PrimeOracle;
use crate::period::{
    lemma_factor_set_of_product,
    lemma_period_outcome_is_factor_set,
    period_factor,
    period_outcome,
};
use crate::trial::trial_factor;

verus! {

/// How an odd composite number is factored.
#[derive(Clone, Copy, Debug, PartialEq, Eq, Structural)]
pub enum Strategy {
    /// Trial division: always answers.
    TrialDivision,
    /// Period finding with the witnesses from 3 up to `witness_limit`:
    /// answers where one of them splits the number.
    PeriodFinding { witness_limit: u64 },
}

/// `n` with every factor 2 divided out; 0 for 0.
pub open spec fn odd_part(n: u64) -> u64
    decreases n,
{
    if n == 0 || n % 2 == 1 {
        n
    } else {
        odd_part(n / 2)
    }
}

/// What the strategy reports for an odd composite `n`.
pub open spec fn strategy_outcome(n: u64, strategy: Strategy) -> Option<Set<u64>> {
    match strategy {
        Strategy::TrialDivision => Some(factor_set(n)),
        Strategy::PeriodFinding { witness_limit } => period_outcome(n, witness_limit),
    }
}

/// What `factorize` reports for `n`. Numbers up to 2, primes, and numbers
/// whose odd part is 1 or prime are settled without the strategy; for the
/// rest the strategy factors the odd part, and 2 joins where `n` is even.
pub open spec fn factorize_outcome(n: u64, strategy: Strategy) -> Option<Set<u64>> {
    let odd: u64 = odd_part(n);
    if n <= 2 || is_prime_spec(n as nat) {
        Some(set![n])
    } else if odd == 1 {
        Some(set![2])
    } else if is_prime_spec(odd as nat) {
        Some(set![2, odd])
    } else {
        match strategy_outcome(odd, strategy) {
            Some(factors) => Some(
                if n % 2 == 0 {
                    factors.insert(2)
                } else {
                    factors
                },
            ),
            None => None,
        }
    }
}

/// Halving an even number from 4 on keeps its odd part and its prime
/// factors, 2 among them.
proof fn lemma_halve(n: u64)
    requires
        n >= 4,
        n % 2 == 0,
    ensures
        odd_part(n) == odd_part((n / 2) as u64),
        factor_set(n) == factor_set((n / 2) as u64).insert(2),
{
    lemma_small_primes();
    lemma_factor_set_of_product(n, 2, (n / 2) as u64);
}

/// The odd part of a number from 1 on is odd, and a number is its own odd
/// part where it is odd.
proof fn lemma_odd_part_is_odd(n: u64)
    requires
        n >= 1,
    ensures
        odd_part(n) % 2 == 1,
        1 <= odd_part(n) <= n,
    decreases n,
{
    if n % 2 == 0 {
        lemma_odd_part_is_odd((n / 2) as u64);
    }
}

/// Whatever `factorize` reports is the set of prime factors, and with
/// trial division it always reports.
pub proof fn lemma_factorize_outcome_is_factor_set(n: u64, strategy: Strategy)
    ensures
        factorize_outcome(n, strategy) is Some ==> factorize_outcome(n, strategy) == Some(
            factor_set(n),
        ),
        strategy == Strategy::TrialDivision ==> factorize_outcome(n, strategy) is Some,
{
    lemma_small_primes();
    if n <= 1 {
    } else if is_prime_spec(n as nat) {
        lemma_factor_set_of_prime(n);
    } else {
        lemma_factor_set_by_odd_part(n);
        let odd: u64 = odd_part(n);
        if odd != 1 && !is_prime_spec(odd as nat) {
            if let Strategy::PeriodFinding { witness_limit } = strategy {
                if period_outcome(odd, witness_limit) is Some {
                    lemma_period_outcome_is_factor_set(odd, witness_limit);
                }
            }
        }
    }
}

/// The strategies agree: whatever `factorize` reports by period finding,
/// it reports by trial division too.
pub proof fn lemma_strategies_agree(n: u64, witness_limit: u64)
    requires
        factorize_outcome(n, Strategy::PeriodFinding { witness_limit }) is Some,
    ensures
        factorize_outcome(n, Strategy::PeriodFinding { witness_limit }) == factorize_outcome(
            n,
            Strategy::TrialDivision,
        ),
{
    lemma_factorize_outcome_is_factor_set(n, Strategy::PeriodFinding { witness_limit });
    lemma_factorize_outcome_is_factor_set(n, Strategy::TrialDivision);
}

/// Round trip: whatever `factorize` reports for a positive number, its
/// members, each raised to its multiplicity in that number, multiply to the
/// number.
pub proof fn lemma_factorize_round_trip(n: u64, strategy: Strategy)
    requires
        n >= 1,
        factorize_outcome(n, strategy) is Some,
    ensures
        power_product(factorize_outcome(n, strategy).unwrap(), n as nat, n as nat) == n,
{
    lemma_factorize_outcome_is_factor_set(n, strategy);
    lemma_round_trip(n);
}

/// The prime factors of a number from 2 on are those of its odd part, and
/// 2 where it is even.
proof fn lemma_factor_set_by_odd_part(n: u64)
    requires
        n >= 2,
    ensures
        odd_part(n) == 1 ==> factor_set(n) == set![2u64],
        odd_part(n) != 1 && n % 2 == 0 ==> factor_set(n) == factor_set(odd_part(n)).insert(2),
        n % 2 == 1 ==> odd_part(n) == n,
        is_prime_spec(odd_part(n) as nat) && n % 2 == 0 ==> factor_set(n) == set![
            2u64,
            odd_part(n),
        ],
    decreases n,
{
    lemma_small_primes();
    if n % 2 == 0 {
        if n == 2 {
            lemma_factor_set_of_prime(2);
            assert(odd_part(1) == 1);
        } else {
            let half: u64 = (n / 2) as u64;
            lemma_halve(n);
            lemma_factor_set_by_odd_part(half);
            if half % 2 == 1 {
                assert(odd_part(n) == half);
            } else {
                if odd_part(n) == 1 {
                    assert(factor_set(n) =~= set![2u64]);
                } else {
                    assert(factor_set(n) =~= factor_set(odd_part(n)).insert(2));
                }
            }
        }
        lemma_odd_part_is_odd(n);
        let odd: u64 = odd_part(n);
        if is_prime_spec(odd as nat) {
            lemma_factor_set_of_prime(odd);
            assert(set![odd].insert(2) =~= set![2u64, odd]);
        }
    }
}

/// The distinct prime factors of `n`. Numbers up to 2 and primes are
/// their own only factor. From an even number the factor 2 is shifted out,
/// and 2 joins the factors of the odd part that is left. An odd composite
/// goes to the strategy.
///
/// With period finding the witnesses may run out; with trial division
/// there is always an answer.
pub fn factorize(n: u64, strategy: Strategy, oracle: &mut PrimeOracle) -> (r: Result<
    HashSet<u64>,
    FactorError,
>)
    requires
        old(oracle).well_formed(),
    ensures
        match r {
            Ok(factors) => factorize_outcome(n, strategy) == Some(factors@) && factors@
                == factor_set(n),
            Err(e) => e == FactorError::WitnessesExhausted && factorize_outcome(n, strategy)
                is None,
        },
        strategy == Strategy::TrialDivision ==> r is Ok,
        final(oracle).well_formed(),
        old(oracle)@.submap_of(final(oracle)@),
    decreases n,
{
    proof {
        lemma_factorize_outcome_is_factor_set(n, strategy);
        lemma_small_primes();
    }
    if n <= 2 || oracle.is_prime(n) {
        let mut factors: HashSet<u64> = HashSet::new();
        factors.insert(n);
        proof {
            assert(factors@ =~= set![n]);
        }
        return Ok(factors);
    }
    let ghost asked: Map<u64, bool> = oracle@;
    if n % 2 == 0 {
        let mut number: u64 = n;
        proof {
            assert(number >> 1 == number / 2) by (bit_vector);
        }
        number >>= 1;
        while number % 2 == 0
            invariant
                1 <= number < n,
                odd_part(number) == odd_part(n),
            decreases number,
        {
            proof {
                assert(number >> 1 == number / 2) by (bit_vector);
            }
            number >>= 1;
        }
        proof {
            lemma_factor_set_by_odd_part(n);
        }
        let mut factors: HashSet<u64> = HashSet::new();
        if number != 1 {
            match factorize(number, strategy, oracle) {
                Ok(odd_factors) => {
                    factors = odd_factors;
                },
                Err(e) => {
                    proof {
                        lemma_submap_of_trans(old(oracle)@, asked, oracle@);
                    }
                    return Err(e);
                },
            }
        }
        factors.insert(2);
        proof {
            lemma_submap_of_trans(old(oracle)@, asked, oracle@);
            if number == 1 {
                assert(factors@ =~= set![2u64]);
            }
        }
        return Ok(factors);
    }
    let r = match strategy {
        Strategy::TrialDivision => Ok(trial_factor(n, oracle)),
        Strategy::PeriodFinding { witness_limit } => period_factor(n, witness_limit, oracle),
    };
    proof {
        lemma_submap_of_trans(old(oracle)@, asked, oracle@);
    }
    r
}

} // verus!
