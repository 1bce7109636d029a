//! Factorization by trial division.

use std::collections::HashSet;
use vstd::prelude::*;
use vstd::map_lib::lemma_submap_of_trans;
use crate::divisibility::{
    divides,
    is_prime_spec,
    least_prime_factor,
    lemma_divides_multiple,
    lemma_divides_quotient,
    lemma_divides_transitive,
    lemma_least_prime_factor,
    lemma_small_primes,
};
use crate::factors::{factor_set, lemma_factor_set_nonempty, lemma_factor_set_of_prime};
use crate::gcd::lemma_prime_divides_product;
use crate::oracle::PrimeOracle;

verus! {

/// What the search has reached after stripping factors from `n`: `rest` is
/// the part of `n` still to be factored, and `found` holds prime factors of
/// `n`, among them every one that no longer divides `rest`.
spec fn partial_factorization(n: u64, rest: u64, found: Set<u64>) -> bool {
    &&& rest >= 1
    &&& divides(rest as nat, n as nat)
    &&& forall|p: u64| #[trigger]
        found.contains(p) ==> is_prime_spec(p as nat) && divides(p as nat, n as nat)
    &&& forall|p: u64|
        is_prime_spec(p as nat) && #[trigger] divides(p as nat, n as nat) ==> found.contains(p)
            || divides(p as nat, rest as nat)
}

/// Dividing the rest by one of its prime factors, and recording that
/// factor, keeps a partial factorization.
proof fn lemma_strip_factor(n: u64, rest: u64, found: Set<u64>, g: u64)
    requires
        partial_factorization(n, rest, found),
        is_prime_spec(g as nat),
        divides(g as nat, rest as nat),
    ensures
        partial_factorization(n, (rest / g) as u64, found.insert(g)),
        rest / g < rest,
        (rest / g) * g == rest,
{
    let quotient: nat = rest as nat / g as nat;
    lemma_divides_quotient(g as nat, rest as nat);
    lemma_divides_multiple(quotient, g as nat);
    assert(divides(quotient, rest as nat));
    lemma_divides_transitive(quotient, rest as nat, n as nat);
    lemma_divides_transitive(g as nat, rest as nat, n as nat);
    assert(quotient < rest) by (nonlinear_arith)
        requires
            rest == g * quotient,
            g >= 2,
            quotient >= 1,
    ;
    assert(quotient * g == rest) by (nonlinear_arith)
        requires
            rest == g * quotient,
    ;
    assert forall|p: u64|
        is_prime_spec(p as nat) && #[trigger] divides(p as nat, n as nat) implies found.insert(
        g,
    ).contains(p) || divides(p as nat, quotient) by {
        if !found.contains(p) {
            assert(divides(p as nat, rest as nat));
            lemma_prime_divides_product(p as nat, g as nat, quotient);
        }
    }
}

/// A partial factorization whose rest is 1 is complete.
proof fn lemma_factorization_complete(n: u64, found: Set<u64>)
    requires
        n >= 2,
        partial_factorization(n, 1, found),
    ensures
        found == factor_set(n),
{
    assert forall|p: u64| found.contains(p) <==> factor_set(n).contains(p) by {
        if is_prime_spec(p as nat) && divides(p as nat, n as nat) && !found.contains(p) {
            lemma_divides_quotient(p as nat, 1);
        }
    }
    assert(found =~= factor_set(n));
}

/// A partial factorization whose rest is prime is completed by that prime.
proof fn lemma_factorization_ends_in_prime(n: u64, rest: u64, found: Set<u64>)
    requires
        n >= 2,
        partial_factorization(n, rest, found),
        is_prime_spec(rest as nat),
    ensures
        found.insert(rest) == factor_set(n),
{
    lemma_divides_multiple(rest as nat, 1);
    lemma_strip_factor(n, rest, found, rest);
    assert(rest / rest == 1);
    lemma_factorization_complete(n, found.insert(rest));
}

/// A number with no divisor strictly between 1 and `g`, which `g` divides,
/// has `g` as a prime factor.
proof fn lemma_least_divisor_is_prime(rest: nat, g: nat)
    requires
        g >= 2,
        divides(g, rest),
        forall|d: nat| 1 < d < g ==> !#[trigger] divides(d, rest),
    ensures
        is_prime_spec(g),
{
    assert forall|d: nat| 1 < d < g implies !#[trigger] divides(d, g) by {
        if divides(d, g) {
            lemma_divides_transitive(d, g, rest);
        }
    }
}

/// An odd composite number with no divisor strictly between 1 and `g`, and
/// which `g` does not divide, exceeds `g + 2`, and has no divisor strictly
/// between 1 and `g + 2` where `g` is odd.
proof fn lemma_next_candidate(rest: nat, g: nat)
    requires
        rest >= 2,
        rest % 2 == 1,
        g >= 3,
        g % 2 == 1,
        !is_prime_spec(rest),
        !divides(g, rest),
        forall|d: nat| 1 < d < g ==> !#[trigger] divides(d, rest),
    ensures
        g + 2 <= rest,
        forall|d: nat| 1 < d < g + 2 ==> !#[trigger] divides(d, rest),
{
    lemma_least_prime_factor(rest);
    let p: nat = least_prime_factor(rest);
    assert(p >= g);
    assert(p < rest);
    assert forall|d: nat| 1 < d < g + 2 implies !#[trigger] divides(d, rest) by {
        if d == g + 1 && divides(d, rest) {
            assert(divides(2, d));
            lemma_divides_transitive(2, d, rest);
        }
    }
}

/// The quotient of an odd number by a divisor is odd, and inherits the
/// absence of small divisors.
proof fn lemma_quotient_keeps_shape(rest: nat, g: nat)
    requires
        rest % 2 == 1,
        g >= 2,
        divides(g, rest),
        forall|d: nat| 1 < d < g ==> !#[trigger] divides(d, rest),
    ensures
        (rest / g) % 2 == 1,
        forall|d: nat| 1 < d < g ==> !#[trigger] divides(d, rest / g),
{
    let quotient: nat = rest / g;
    lemma_divides_quotient(g, rest);
    lemma_divides_multiple(quotient, g);
    assert(divides(quotient, rest));
    if quotient % 2 == 0 {
        assert(divides(2, quotient));
        lemma_divides_transitive(2, quotient, rest);
    }
    assert forall|d: nat| 1 < d < g implies !#[trigger] divides(d, quotient) by {
        if divides(d, quotient) {
            lemma_divides_transitive(d, quotient, rest);
        }
    }
}

/// The distinct prime factors of `n`, by trial division. The factor 2 is
/// shifted out first; then odd candidates are tried from 3 upwards, each as
/// often as it divides, and the search ends as soon as the oracle finds
/// what is left to be prime. For 0 and 1 the set holds the number itself.
pub fn trial_factor(n: u64, oracle: &mut PrimeOracle) -> (factors: HashSet<u64>)
    requires
        old(oracle).well_formed(),
    ensures
        factors@ == factor_set(n),
        exists|p: u64| factors@.contains(p),
        final(oracle).well_formed(),
        old(oracle)@.submap_of(final(oracle)@),
{
    proof {
        lemma_factor_set_nonempty(n);
    }
    let mut factors: HashSet<u64> = HashSet::new();
    if n <= 2 || oracle.is_prime(n) {
        factors.insert(n);
        proof {
            lemma_small_primes();
            if n >= 2 {
                lemma_factor_set_of_prime(n);
            }
            assert(factors@ =~= set![n]);
        }
        return factors;
    }
    let mut number: u64 = n;
    proof {
        lemma_divides_multiple(n as nat, 1);
    }
    if number % 2 == 0 {
        factors.insert(2);
        proof {
            lemma_small_primes();
            assert(divides(2, n as nat));
            lemma_strip_factor(n, number, Set::<u64>::empty(), 2);
            assert(number >> 1 == number / 2) by (bit_vector);
            assert(factors@ =~= Set::<u64>::empty().insert(2));
        }
        number >>= 1;
        while number % 2 == 0
            invariant
                n >= 2,
                partial_factorization(n, number, factors@),
                factors@.contains(2),
            decreases number,
        {
            proof {
                assert(divides(2, number as nat));
                lemma_small_primes();
                lemma_strip_factor(n, number, factors@, 2);
                assert(number >> 1 == number / 2) by (bit_vector);
                assert(factors@.insert(2) =~= factors@);
            }
            number >>= 1;
        }
    }
    let mut g: u64 = 3;
    proof {
        assert forall|d: nat| 1 < d < 3 implies !#[trigger] divides(d, number as nat) by {
            assert(d == 2);
        }
    }
    while number != 1
        invariant
            n >= 2,
            partial_factorization(n, number, factors@),
            number % 2 == 1,
            g >= 3,
            g % 2 == 1,
            forall|d: nat| 1 < d < g ==> !#[trigger] divides(d, number as nat),
            oracle.well_formed(),
            old(oracle)@.submap_of(oracle@),
        ensures
            number != 1 ==> factors@ == factor_set(n),
        decreases number, number - g,
    {
        let ghost before: Map<u64, bool> = oracle@;
        if number % g == 0 {
            proof {
                lemma_least_divisor_is_prime(number as nat, g as nat);
                lemma_strip_factor(n, number, factors@, g);
                lemma_quotient_keeps_shape(number as nat, g as nat);
            }
            factors.insert(g);
            number /= g;
        } else if oracle.is_prime(number) {
            proof {
                lemma_submap_of_trans(old(oracle)@, before, oracle@);
                lemma_factorization_ends_in_prime(n, number, factors@);
            }
            factors.insert(number);
            break;
        } else {
            proof {
                lemma_submap_of_trans(old(oracle)@, before, oracle@);
                lemma_next_candidate(number as nat, g as nat);
            }
            g += 2;
        }
    }
    proof {
        if number == 1 {
            lemma_factorization_complete(n, factors@);
        }
    }
    factors
}

} // verus!
