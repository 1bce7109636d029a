//! What a factorization reports: the set of distinct prime factors.

use vstd::prelude::*;
use crate::divisibility::{
    divides,
    is_prime_spec,
    least_prime_factor,
    lemma_divides_multiple,
    lemma_divides_quotient,
    lemma_least_prime_factor,
    lemma_prime_divides_prime,
};

verus! {

/// The set that factorizing `n` reports: the primes that divide `n`. Zero
/// and one have no prime factorization; for them the set holds the number
/// itself.
pub open spec fn factor_set(n: u64) -> Set<u64> {
    if n <= 1 {
        set![n]
    } else {
        Set::new(|p: u64| is_prime_spec(p as nat) && divides(p as nat, n as nat))
    }
}

/// The only prime factor of a prime is the prime itself.
pub proof fn lemma_factor_set_of_prime(n: u64)
    requires
        is_prime_spec(n as nat),
    ensures
        factor_set(n) == set![n],
{
    assert forall|p: u64| factor_set(n).contains(p) <==> p == n by {
        if is_prime_spec(p as nat) && divides(p as nat, n as nat) {
            lemma_prime_divides_prime(p as nat, n as nat);
        }
        if p == n {
            lemma_divides_multiple(n as nat, 1);
        }
    }
    assert(factor_set(n) =~= set![n]);
}

/// No factor set is empty: every number from 2 on has a prime factor.
pub proof fn lemma_factor_set_nonempty(n: u64)
    ensures
        exists|p: u64| factor_set(n).contains(p),
{
    if n <= 1 {
        assert(factor_set(n).contains(n));
    } else {
        lemma_least_prime_factor(n as nat);
        assert(factor_set(n).contains(least_prime_factor(n as nat) as u64));
    }
}

/// Every member of the factor set of a positive number is at most that
/// number.
pub proof fn lemma_factor_set_bounded(n: u64, p: u64)
    requires
        n >= 1,
        factor_set(n).contains(p),
    ensures
        1 <= p <= n,
{
    if n > 1 {
        lemma_divides_quotient(p as nat, n as nat);
    }
}

} // verus!
