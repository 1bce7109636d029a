//! Divisibility and primality over the natural numbers: the vocabulary in
//! which every contract of this crate is stated, with the lemmas that the
//! factorizers rest on.

use vstd::prelude::*;
use vstd::arithmetic::div_mod::{
    lemma_fundamental_div_mod,
    lemma_mod_multiples_basic,
};
use vstd::arithmetic::mul::{
    lemma_mul_is_associative,
    lemma_mul_is_commutative,
};

verus! {

/// `d` divides `n`: `d` is positive and `n` is a multiple of it.
pub open spec fn divides(d: nat, n: nat) -> bool {
    d > 0 && n % d == 0
}

/// `n` is prime: at least 2, and no number strictly between 1 and `n`
/// divides it.
pub open spec fn is_prime_spec(n: nat) -> bool {
    n >= 2 && forall|d: nat| 1 < d < n ==> !#[trigger] divides(d, n)
}

/// Trial division up to the square root: `n` is at least 2 and no `d >= 2`
/// with `d * d <= n` divides it.
pub open spec fn survives_trial_division(n: nat) -> bool {
    n >= 2 && forall|d: nat| 1 < d && d * d <= n ==> !#[trigger] divides(d, n)
}

/// A multiple of `d` is divisible by `d`.
pub proof fn lemma_divides_multiple(d: nat, k: nat)
    requires
        d > 0,
    ensures
        divides(d, d * k),
        divides(d, k * d),
{
    lemma_mod_multiples_basic(k as int, d as int);
    lemma_mul_is_commutative(k as int, d as int);
}

/// A number that `d` divides is `d` times its quotient by `d`.
pub proof fn lemma_divides_quotient(d: nat, n: nat)
    requires
        divides(d, n),
    ensures
        n == d * (n / d),
        n > 0 ==> n / d >= 1,
        n > 0 ==> d <= n,
{
    lemma_fundamental_div_mod(n as int, d as int);
    let q: nat = n / d;
    if n > 0 {
        assert(q >= 1) by {
            if q == 0 {
                assert(d * q == 0) by (nonlinear_arith)
                    requires
                        q == 0,
                ;
            }
        }
        assert(d <= d * q) by (nonlinear_arith)
            requires
                q >= 1,
        ;
    }
}

/// Divisibility is transitive.
pub proof fn lemma_divides_transitive(a: nat, b: nat, c: nat)
    requires
        divides(a, b),
        divides(b, c),
    ensures
        divides(a, c),
{
    lemma_divides_quotient(a, b);
    lemma_divides_quotient(b, c);
    let k: nat = b / a;
    let m: nat = c / b;
    assert(c == a * (k * m)) by {
        lemma_mul_is_associative(a as int, k as int, m as int);
    }
    lemma_divides_multiple(a, k * m);
}

/// A proper divisor of a positive number comes with a cofactor that is a
/// proper divisor too.
pub proof fn lemma_cofactor(d: nat, n: nat)
    requires
        divides(d, n),
        1 < d < n,
    ensures
        divides(n / d, n),
        1 < n / d < n,
        d * (n / d) == n,
{
    lemma_divides_quotient(d, n);
    let q: nat = n / d;
    lemma_divides_multiple(q, d);
    assert(q * d == d * q) by {
        lemma_mul_is_commutative(q as int, d as int);
    }
    assert(q != 1) by (nonlinear_arith)
        requires
            d * q == n,
            d < n,
    ;
    assert(q < d * q) by (nonlinear_arith)
        requires
            d > 1,
            q >= 1,
    ;
}

/// The least divisor of `n` that is at least `d`, searched upwards; `n`
/// itself where the search finds none below it.
pub open spec fn least_divisor_from(n: nat, d: nat) -> nat
    decreases n - d,
{
    if d >= n || d == 0 {
        n
    } else if n % d == 0 {
        d
    } else {
        least_divisor_from(n, d + 1)
    }
}

/// The least divisor of `n` above 1; it is the least prime factor of `n`.
pub open spec fn least_prime_factor(n: nat) -> nat {
    least_divisor_from(n, 2)
}

/// The upward search ends on a divisor of `n`, and passes none.
proof fn lemma_least_divisor_from(n: nat, d: nat)
    requires
        2 <= d <= n,
        forall|e: nat| 1 < e < d ==> !#[trigger] divides(e, n),
    ensures
        d <= least_divisor_from(n, d) <= n,
        divides(least_divisor_from(n, d), n),
        forall|e: nat| 1 < e < least_divisor_from(n, d) ==> !#[trigger] divides(e, n),
    decreases n - d,
{
    if d >= n {
        lemma_divides_multiple(n, 1);
    } else if n % d == 0 {
    } else {
        lemma_least_divisor_from(n, d + 1);
    }
}

/// Every number from 2 on has a prime factor, and `least_prime_factor`
/// names the least one.
pub proof fn lemma_least_prime_factor(n: nat)
    requires
        n >= 2,
    ensures
        is_prime_spec(least_prime_factor(n)),
        divides(least_prime_factor(n), n),
        2 <= least_prime_factor(n) <= n,
        forall|e: nat| 1 < e < least_prime_factor(n) ==> !#[trigger] divides(e, n),
{
    lemma_least_divisor_from(n, 2);
    let p: nat = least_prime_factor(n);
    assert forall|e: nat| 1 < e < p implies !#[trigger] divides(e, p) by {
        if divides(e, p) {
            lemma_divides_transitive(e, p, n);
        }
    }
}

/// A prime has no divisors but 1 and itself.
pub proof fn lemma_prime_divisors(p: nat, d: nat)
    requires
        is_prime_spec(p),
        divides(d, p),
    ensures
        d == 1 || d == p,
{
    lemma_divides_quotient(d, p);
}

/// A prime that divides a prime equals it.
pub proof fn lemma_prime_divides_prime(p: nat, q: nat)
    requires
        is_prime_spec(p),
        is_prime_spec(q),
        divides(p, q),
    ensures
        p == q,
{
    lemma_prime_divisors(q, p);
}

/// A number is prime exactly when trial division by everything from 2 up to
/// its square root finds no divisor.
pub proof fn lemma_prime_iff_trial_division(n: nat)
    ensures
        is_prime_spec(n) <==> survives_trial_division(n),
{
    if is_prime_spec(n) {
        assert forall|d: nat| 1 < d && d * d <= n implies !#[trigger] divides(d, n) by {
            assert(d < n) by (nonlinear_arith)
                requires
                    1 < d,
                    d * d <= n,
            ;
        }
    }
    if survives_trial_division(n) {
        assert forall|d: nat| 1 < d < n implies !#[trigger] divides(d, n) by {
            if divides(d, n) {
                lemma_cofactor(d, n);
                let q: nat = n / d;
                if d * d <= n {
                } else {
                    assert(q * q <= n) by (nonlinear_arith)
                        requires
                            d * q == n,
                            d * d > n,
                            q >= 1,
                            d >= 1,
                    ;
                    assert(divides(q, n));
                }
            }
        }
    }
}

/// Zero and one are not prime; two and three are.
pub proof fn lemma_small_primes()
    ensures
        !is_prime_spec(0),
        !is_prime_spec(1),
        is_prime_spec(2),
        is_prime_spec(3),
{
    assert forall|d: nat| 1 < d < 3 implies !#[trigger] divides(d, 3) by {
        assert(d == 2);
    }
}

} // verus!
