//! Factorization by period finding: the classical half of Shor's
//! algorithm. A witness coprime to `n` is raised to half its even period;
//! the greatest common divisor of that power plus one with `n` is a
//! divisor of `n`, and the witness splits `n` where that divisor is proper
//! and leaves a prime cofactor.

use std::collections::HashSet;
use vstd::prelude::*;
use vstd::map_lib::lemma_submap_of_trans;
use crate::divisibility::{
    divides,
    is_prime_spec,
    lemma_cofactor,
    lemma_divides_multiple,
    lemma_divides_quotient,
    lemma_divides_transitive,
};
use crate::error::FactorError;
use crate::factors::{factor_set, lemma_factor_set_of_prime};
use crate::gcd::{
    gcd,
    gcd_spec,
    lemma_gcd_is_gcd,
    lemma_gcd_symmetric,
    lemma_prime_divides_product,
};
use crate::modular::{mod_pow, pow_mod};
use crate::oracle::PrimeOracle;
use crate::order::{even_period, half_even_period};

verus! {

/// What divisor extraction reports for `n` from the residue `x`: with
/// `d = gcd(x + 1, n)`, the cofactor `n / d` where `d` is neither 1 nor `n`
/// and the cofactor is prime; nothing otherwise.
pub open spec fn extraction(n: u64, x: u64) -> Option<u64> {
    let d: nat = gcd_spec((x + 1) as nat, n as nat);
    if d != 1 && d != n && is_prime_spec(n as nat / d) {
        Some((n as nat / d) as u64)
    } else {
        None
    }
}

/// What an extraction reports is a prime factor of `n` below `n`, and the
/// quotient of `n` by it is a divisor of `n` strictly between 1 and `n`.
pub proof fn lemma_extraction_splits(n: u64, x: u64)
    requires
        n >= 1,
        extraction(n, x) is Some,
    ensures
        is_prime_spec(extraction(n, x).unwrap() as nat),
        divides(extraction(n, x).unwrap() as nat, n as nat),
        1 < n / extraction(n, x).unwrap() < n,
        extraction(n, x).unwrap() * (n / extraction(n, x).unwrap()) == n,
        n / extraction(n, x).unwrap() == gcd_spec((x + 1) as nat, n as nat),
{
    let d: nat = gcd_spec((x + 1) as nat, n as nat);
    lemma_gcd_is_gcd((x + 1) as nat, n as nat);
    lemma_divides_quotient(d, n as nat);
    lemma_cofactor(d, n as nat);
    let f: nat = n as nat / d;
    lemma_cofactor(f, n as nat);
    assert(n as nat / f == d) by (nonlinear_arith)
        requires
            f * (n as nat / f) == n,
            d * f == n,
            f > 0,
    ;
}

/// Divisor extraction by a Euclidean walk. The pair `(x + 1, n)` is taken
/// through the steps of the Euclidean algorithm; at each step the greatest
/// common divisor of the pair is looked at, and the walk stops with the
/// cofactor as soon as that divisor is a proper divisor of `n` with a prime
/// cofactor. It stops with nothing when the second member reaches 0.
///
/// Every pair on the walk has the same greatest common divisor, so the
/// walk finds exactly what the first pair shows.
pub fn extract_factor(n: u64, x: u64, oracle: &mut PrimeOracle) -> (found: Option<u64>)
    requires
        n >= 1,
        x < n,
        old(oracle).well_formed(),
    ensures
        found == extraction(n, x),
        final(oracle).well_formed(),
        old(oracle)@.submap_of(final(oracle)@),
{
    let mut nom: u64 = x + 1;
    let mut den: u64 = n;
    let mut outcome: u64 = gcd(nom, den);
    proof {
        lemma_gcd_is_gcd((x + 1) as nat, n as nat);
    }
    loop
        invariant
            n >= 1,
            outcome == gcd_spec((x + 1) as nat, n as nat),
            outcome == gcd_spec(nom as nat, den as nat),
            outcome >= 1,
            oracle.well_formed(),
            old(oracle)@.submap_of(oracle@),
        decreases den,
    {
        let ghost before: Map<u64, bool> = oracle@;
        if outcome != 1 && outcome != n && oracle.is_prime(n / outcome) {
            proof {
                lemma_submap_of_trans(old(oracle)@, before, oracle@);
            }
            return Some(n / outcome);
        }
        proof {
            lemma_submap_of_trans(old(oracle)@, before, oracle@);
        }
        if den == 0 {
            return None;
        }
        let rem: u64 = nom % den;
        nom = den;
        den = rem;
        outcome = gcd(nom, den);
    }
}

/// What the witness `g` yields for `n`: nothing where `g` is not coprime
/// to `n`; else what extraction reports from `g` raised to half its even
/// period.
pub open spec fn witness_factor(n: u64, g: u64) -> Option<u64> {
    if gcd_spec(n as nat, g as nat) == 1 {
        let half: nat = even_period(n as nat, g as nat) / 2;
        extraction(n, pow_mod(g as nat, half, n as nat) as u64)
    } else {
        None
    }
}

/// One attempt: tests the witness, estimates its even period, and
/// extracts a factor from the power at half the period.
pub fn try_witness(n: u64, g: u64, oracle: &mut PrimeOracle) -> (found: Option<u64>)
    requires
        n >= 2,
        old(oracle).well_formed(),
    ensures
        found == witness_factor(n, g),
        final(oracle).well_formed(),
        old(oracle)@.submap_of(final(oracle)@),
{
    if gcd(n, g) != 1 {
        return None;
    }
    proof {
        lemma_gcd_symmetric(n as nat, g as nat);
    }
    let half: u64 = half_even_period(n, g);
    match mod_pow(g, half, n) {
        Ok(x) => extract_factor(n, x, oracle),
        Err(_) => None,
    }
}

/// `g` is the first witness from 3 up to `limit` that yields a factor of
/// `n`.
pub open spec fn is_first_split(n: u64, limit: u64, g: u64) -> bool {
    &&& 3 <= g <= limit
    &&& witness_factor(n, g) is Some
    &&& forall|w: u64| 3 <= w < g ==> #[trigger] witness_factor(n, w) is None
}

/// Some witness from 3 up to `limit` yields a factor of `n`.
pub open spec fn splittable(n: u64, limit: u64) -> bool {
    exists|g: u64| is_first_split(n, limit, g)
}

/// The first witness from 3 up to `limit` that yields a factor of `n`.
pub open spec fn first_split(n: u64, limit: u64) -> u64 {
    choose|g: u64| is_first_split(n, limit, g)
}

/// The first witness that yields a factor is unique.
pub proof fn lemma_first_split_unique(n: u64, limit: u64, g: u64)
    requires
        is_first_split(n, limit, g),
    ensures
        splittable(n, limit),
        first_split(n, limit) == g,
{
    let chosen: u64 = first_split(n, limit);
    assert(is_first_split(n, limit, chosen));
    if chosen < g {
        assert(witness_factor(n, chosen) is None);
    }
    if g < chosen {
        assert(witness_factor(n, g) is None);
    }
}

/// The outcome of period finding on `n` with witnesses from 3 up to
/// `limit`. Where no witness yields a factor there is none. Else the first
/// such witness yields a prime `f`; where `n / f` is prime the two make the
/// set, and where it is not, `f` joins the outcome for `n / f`.
pub open spec fn period_outcome(n: u64, limit: u64) -> Option<Set<u64>>
    decreases n,
    via period_outcome_decreases
{
    if n >= 1 && splittable(n, limit) {
        let f: u64 = witness_factor(n, first_split(n, limit)).unwrap();
        let rest: u64 = (n / f) as u64;
        if is_prime_spec(rest as nat) {
            Some(set![f, rest])
        } else {
            match period_outcome(rest, limit) {
                Some(factors) => Some(factors.insert(f)),
                None => None,
            }
        }
    } else {
        None
    }
}

#[via_fn]
proof fn period_outcome_decreases(n: u64, limit: u64) {
    if n >= 1 && splittable(n, limit) {
        let g: u64 = first_split(n, limit);
        assert(is_first_split(n, limit, g));
        lemma_witness_splits(n, g);
    }
}

/// What a witness yields is a prime factor of `n`, and the quotient of `n`
/// by it is an odd divisor strictly between 1 and `n` where `n` is odd.
pub proof fn lemma_witness_splits(n: u64, g: u64)
    requires
        n >= 1,
        witness_factor(n, g) is Some,
    ensures
        is_prime_spec(witness_factor(n, g).unwrap() as nat),
        divides(witness_factor(n, g).unwrap() as nat, n as nat),
        1 < n / witness_factor(n, g).unwrap() < n,
        witness_factor(n, g).unwrap() * (n / witness_factor(n, g).unwrap()) == n,
        n % 2 == 1 ==> (n / witness_factor(n, g).unwrap()) % 2 == 1,
{
    let half: nat = even_period(n as nat, g as nat) / 2;
    let x: u64 = pow_mod(g as nat, half, n as nat) as u64;
    lemma_extraction_splits(n, x);
    let f: u64 = witness_factor(n, g).unwrap();
    let rest: nat = n as nat / f as nat;
    if n % 2 == 1 && rest % 2 == 0 {
        lemma_divides_multiple(rest, f as nat);
        assert(rest * f == f * rest) by (nonlinear_arith);
        assert(divides(2, rest));
        lemma_divides_transitive(2, rest, n as nat);
    }
}

/// The prime factors of a product of a prime `f` and a number `rest` from
/// 2 on are `f` and the prime factors of `rest`.
pub proof fn lemma_factor_set_of_product(n: u64, f: u64, rest: u64)
    requires
        is_prime_spec(f as nat),
        rest >= 2,
        f * rest == n,
    ensures
        factor_set(n) == factor_set(rest).insert(f),
{
    assert(n >= 2) by (nonlinear_arith)
        requires
            f * rest == n,
            f >= 2,
            rest >= 2,
    ;
    assert forall|p: u64| factor_set(n).contains(p) <==> factor_set(rest).insert(f).contains(
        p,
    ) by {
        if is_prime_spec(p as nat) {
            lemma_prime_divides_product(p as nat, f as nat, rest as nat);
        }
    }
    assert(factor_set(n) =~= factor_set(rest).insert(f));
}

/// Whatever period finding reports is the set of prime factors: where the
/// two strategies both answer, they agree.
pub proof fn lemma_period_outcome_is_factor_set(n: u64, limit: u64)
    requires
        period_outcome(n, limit) is Some,
    ensures
        period_outcome(n, limit) == Some(factor_set(n)),
    decreases n,
{
    let g: u64 = first_split(n, limit);
    assert(is_first_split(n, limit, g));
    lemma_witness_splits(n, g);
    let f: u64 = witness_factor(n, g).unwrap();
    let rest: u64 = (n / f) as u64;
    lemma_factor_set_of_product(n, f, rest);
    if is_prime_spec(rest as nat) {
        lemma_factor_set_of_prime(rest);
        assert(set![f, rest] =~= set![rest].insert(f));
    } else {
        lemma_period_outcome_is_factor_set(rest, limit);
    }
}

/// The distinct prime factors of an odd composite `n`, by period finding
/// with the witnesses from 3 up to `witness_limit`. Each witness is tried
/// in turn; the first that yields a prime factor `f` ends the search, and
/// `n / f`, where it is not prime, is factored in the same way.
///
/// The search is bounded, and may end without a result: 9, for one, is
/// split by no witness up to 60.
pub fn period_factor(n: u64, witness_limit: u64, oracle: &mut PrimeOracle) -> (r: Result<
    HashSet<u64>,
    FactorError,
>)
    requires
        n > 2,
        n % 2 == 1,
        !is_prime_spec(n as nat),
        old(oracle).well_formed(),
    ensures
        match r {
            Ok(factors) => period_outcome(n, witness_limit) == Some(factors@) && factors@
                == factor_set(n),
            Err(e) => e == FactorError::WitnessesExhausted && period_outcome(n, witness_limit)
                is None,
        },
        final(oracle).well_formed(),
        old(oracle)@.submap_of(final(oracle)@),
    decreases n,
{
    let mut g: u64 = 3;
    while g <= witness_limit
        invariant
            n > 2,
            n % 2 == 1,
            3 <= g,
            forall|w: u64| 3 <= w < g ==> #[trigger] witness_factor(n, w) is None,
            oracle.well_formed(),
            old(oracle)@.submap_of(oracle@),
        decreases witness_limit + 1 - g,
    {
        let ghost before: Map<u64, bool> = oracle@;
        let found: Option<u64> = try_witness(n, g, oracle);
        proof {
            lemma_submap_of_trans(old(oracle)@, before, oracle@);
        }
        proof {
            if found is Some {
                lemma_first_split_unique(n, witness_limit, g);
                lemma_witness_splits(n, g);
            }
        }
        if let Some(f) = found {
            if f > 1 {
                let rest: u64 = n / f;
                let ghost asked: Map<u64, bool> = oracle@;
                let rest_is_prime: bool = oracle.is_prime(rest);
                let ghost told: Map<u64, bool> = oracle@;
                proof {
                    lemma_submap_of_trans(old(oracle)@, asked, told);
                }
                let mut factors: HashSet<u64> = HashSet::new();
                if rest_is_prime {
                    factors.insert(rest);
                } else {
                    match period_factor(rest, witness_limit, oracle) {
                        Ok(rest_factors) => {
                            factors = rest_factors;
                        },
                        Err(e) => {
                            proof {
                                lemma_submap_of_trans(old(oracle)@, told, oracle@);
                            }
                            return Err(e);
                        },
                    }
                    proof {
                        lemma_submap_of_trans(old(oracle)@, told, oracle@);
                    }
                }
                factors.insert(f);
                proof {
                    if rest_is_prime {
                        assert(factors@ =~= set![f, rest]);
                    }
                    assert(period_outcome(n, witness_limit) == Some(factors@));
                    lemma_period_outcome_is_factor_set(n, witness_limit);
                }
                return Ok(factors);
            }
        }
        if g == u64::MAX {
            proof {
                lemma_no_split(n, witness_limit);
            }
            return Err(FactorError::WitnessesExhausted);
        }
        g += 1;
    }
    proof {
        lemma_no_split(n, witness_limit);
    }
    Err(FactorError::WitnessesExhausted)
}

/// Where no witness up to the limit yields a factor, period finding has no
/// outcome.
proof fn lemma_no_split(n: u64, limit: u64)
    requires
        forall|w: u64| 3 <= w <= limit ==> #[trigger] witness_factor(n, w) is None,
    ensures
        !splittable(n, limit),
        period_outcome(n, limit) is None,
{
}

} // verus!
