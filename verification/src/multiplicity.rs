//! Multiplicities: how often a prime divides a number, and the product of
//! prime powers that gives the number back.

use vstd::prelude::*;
use vstd::arithmetic::div_mod::{lemma_div_multiples_vanish, lemma_small_mod};
use vstd::arithmetic::mul::{
    lemma_mul_is_associative,
    lemma_mul_is_commutative,
};
use vstd::arithmetic::power::{
    lemma_pow0,
    lemma_pow1,
    lemma_pow_adds,
    lemma_pow_positive,
    pow,
};
use crate::divisibility::{
    divides,
    is_prime_spec,
    least_prime_factor,
    lemma_divides_multiple,
    lemma_divides_quotient,
    lemma_least_prime_factor,
    lemma_small_primes,
};
use crate::factors::{factor_set, lemma_factor_set_bounded};
use crate::gcd::lemma_prime_divides_product;

verus! {

/// How often `p` divides `n`: the largest `k` with `p^k` dividing `n`.
/// Zero where `p` is below 2 or `n` is 0.
pub open spec fn multiplicity(p: nat, n: nat) -> nat
    decreases n,
    via multiplicity_decreases
{
    if p >= 2 && n >= 1 && n % p == 0 {
        1 + multiplicity(p, n / p)
    } else {
        0
    }
}

#[via_fn]
proof fn multiplicity_decreases(p: nat, n: nat) {
    if p >= 2 && n >= 1 && n % p == 0 {
        lemma_divides_quotient(p, n);
        let q: nat = n / p;
        assert(q < n) by (nonlinear_arith)
            requires
                n == p * q,
                p >= 2,
                q >= 1,
        ;
    }
}

/// The product, over the members `q` of `factors` up to `bound`, of `q`
/// raised to its multiplicity in `n`.
pub open spec fn power_product(factors: Set<u64>, n: nat, bound: nat) -> nat
    decreases bound,
{
    if bound == 0 {
        1
    } else {
        let below: nat = power_product(factors, n, (bound - 1) as nat);
        if bound <= u64::MAX && factors.contains(bound as u64) {
            prime_power(bound, n) * below
        } else {
            below
        }
    }
}

/// `q` raised to its multiplicity in `n`.
pub open spec fn prime_power(q: nat, n: nat) -> nat {
    pow(q as int, multiplicity(q, n)) as nat
}

/// The product, over the primes `q` up to `bound`, of `q` raised to its
/// multiplicity in `n`.
pub open spec fn prime_power_product(n: nat, bound: nat) -> nat
    decreases bound,
{
    if bound == 0 {
        1
    } else if is_prime_spec(bound) {
        prime_power(bound, n) * prime_power_product(n, (bound - 1) as nat)
    } else {
        prime_power_product(n, (bound - 1) as nat)
    }
}

/// A prime power is positive, and is 1 for a number that does not divide
/// `n`.
proof fn lemma_prime_power(q: nat, n: nat)
    requires
        q >= 1,
    ensures
        prime_power(q, n) >= 1,
        prime_power(q, n) == pow(q as int, multiplicity(q, n)),
        !divides(q, n) || n == 0 || q < 2 ==> prime_power(q, n) == 1,
{
    lemma_pow_positive(q as int, multiplicity(q, n));
    lemma_pow0(q as int);
}

/// Multiplying a number by a prime raises the multiplicity of that prime
/// by one and leaves the multiplicity of every other prime as it was.
proof fn lemma_multiplicity_of_product(q: nat, p: nat, m: nat)
    requires
        is_prime_spec(q),
        is_prime_spec(p),
        m >= 1,
    ensures
        q == p ==> multiplicity(q, p * m) == 1 + multiplicity(q, m),
        q != p ==> multiplicity(q, p * m) == multiplicity(q, m),
    decreases m,
{
    assert(p * m >= 1) by (nonlinear_arith)
        requires
            p >= 2,
            m >= 1,
    ;
    if q == p {
        lemma_divides_multiple(p, m);
        lemma_div_multiples_vanish(m as int, p as int);
        assert((p * m) / p == m);
    } else {
        lemma_prime_divides_product(q, p, m);
        if divides(q, m) {
            lemma_divides_quotient(q, m);
            let shorter: nat = m / q;
            assert(p * m == q * (p * shorter)) by {
                lemma_mul_is_associative(p as int, q as int, shorter as int);
                lemma_mul_is_commutative(p as int, q as int);
                lemma_mul_is_associative(q as int, p as int, shorter as int);
            }
            lemma_div_multiples_vanish((p * shorter) as int, q as int);
            assert((p * m) / q == p * shorter);
            assert(shorter < m) by (nonlinear_arith)
                requires
                    m == q * shorter,
                    q >= 2,
                    shorter >= 1,
            ;
            lemma_multiplicity_of_product(q, p, shorter);
        }
    }
}

/// Multiplying a number by a prime `p` multiplies the product of its prime
/// powers by `p`, once the bound has reached `p`.
proof fn lemma_product_of_product(p: nat, m: nat, bound: nat)
    requires
        is_prime_spec(p),
        m >= 1,
    ensures
        bound >= p ==> prime_power_product(p * m, bound) == p * prime_power_product(m, bound),
        bound < p ==> prime_power_product(p * m, bound) == prime_power_product(m, bound),
    decreases bound,
{
    if bound > 0 {
        let below: nat = (bound - 1) as nat;
        lemma_product_of_product(p, m, below);
        let a: nat = prime_power_product(m, below);
        if is_prime_spec(bound) {
            lemma_multiplicity_of_product(bound, p, m);
            lemma_prime_power(bound, m);
            lemma_prime_power(bound, p * m);
            let t: nat = prime_power(bound, m);
            if bound == p {
                lemma_pow_adds(p as int, 1, multiplicity(p, m));
                lemma_pow1(p as int);
                assert(prime_power(p, p * m) == p * t);
                assert((p * t) * a == p * (t * a)) by (nonlinear_arith);
            } else if bound > p {
                assert(t * (p * a) == p * (t * a)) by (nonlinear_arith);
            }
        }
    }
}

/// Below 2 there is no prime, and 1 has no prime factor: the product of
/// the prime powers of 1 is 1.
proof fn lemma_product_of_one(bound: nat)
    ensures
        prime_power_product(1, bound) == 1,
    decreases bound,
{
    if bound > 0 {
        lemma_product_of_one((bound - 1) as nat);
        if is_prime_spec(bound) {
            lemma_small_mod(1, bound);
            lemma_prime_power(bound, 1);
        }
    }
}

/// Every positive number is the product of its prime powers: of the primes
/// up to any bound from the number on, each raised to its multiplicity.
pub proof fn lemma_prime_power_product(n: nat, bound: nat)
    requires
        n >= 1,
        bound >= n,
    ensures
        prime_power_product(n, bound) == n,
    decreases n,
{
    if n == 1 {
        lemma_product_of_one(bound);
    } else {
        lemma_least_prime_factor(n);
        let p: nat = least_prime_factor(n);
        lemma_divides_quotient(p, n);
        let m: nat = n / p;
        assert(m < n) by (nonlinear_arith)
            requires
                n == p * m,
                p >= 2,
                m >= 1,
        ;
        lemma_prime_power_product(m, bound);
        lemma_product_of_product(p, m, bound);
    }
}

/// Over the factor set of `n`, the product of the prime powers is the
/// product over all primes: a prime outside the set has multiplicity 0.
proof fn lemma_power_product_over_factor_set(n: u64, bound: nat)
    requires
        n >= 1,
        bound <= n,
    ensures
        power_product(factor_set(n), n as nat, bound) == prime_power_product(n as nat, bound),
    decreases bound,
{
    if bound > 0 {
        lemma_power_product_over_factor_set(n, (bound - 1) as nat);
        lemma_prime_power(bound, n as nat);
        if n == 1 {
            lemma_small_primes();
        }
    }
}

/// Round trip: the members of the factor set of a positive number, each
/// raised to its multiplicity in that number, multiply to the number. No
/// member exceeds the number, so the product up to it takes in all of them.
pub proof fn lemma_round_trip(n: u64)
    requires
        n >= 1,
    ensures
        power_product(factor_set(n), n as nat, n as nat) == n,
        forall|p: u64| #[trigger] factor_set(n).contains(p) ==> 1 <= p <= n,
{
    lemma_power_product_over_factor_set(n, n as nat);
    lemma_prime_power_product(n as nat, n as nat);
    assert forall|p: u64| #[trigger] factor_set(n).contains(p) implies 1 <= p <= n by {
        lemma_factor_set_bounded(n, p);
    }
}

} // verus!
