//! Greatest common divisors: the Euclidean algorithm, what it computes, and
//! the consequences for coprime numbers and for primes.

use vstd::prelude::*;
use vstd::arithmetic::div_mod::{
    lemma_fundamental_div_mod,
    lemma_mod_multiples_vanish,
    lemma_mul_mod_noop_general,
    lemma_small_mod,
};
use vstd::arithmetic::mul::{
    lemma_mul_is_associative,
    lemma_mul_is_commutative,
};
use crate::divisibility::{
    divides,
    is_prime_spec,
    lemma_divides_multiple,
    lemma_divides_quotient,
    lemma_divides_transitive,
    lemma_prime_divisors,
};

verus! {

/// The greatest common divisor of `a` and `b`, by Euclid's recurrence:
/// `gcd(a, 0) = a` and `gcd(a, b) = gcd(b, a mod b)`.
pub open spec fn gcd_spec(a: nat, b: nat) -> nat
    decreases b,
{
    if b == 0 {
        a
    } else {
        gcd_spec(b, a % b)
    }
}

/// `g` is the greatest common divisor of `a` and `b`: it divides both, and
/// every common divisor divides it. Of two zeros it is zero.
pub open spec fn is_gcd(a: nat, b: nat, g: nat) -> bool {
    if a == 0 && b == 0 {
        g == 0
    } else {
        &&& divides(g, a)
        &&& divides(g, b)
        &&& forall|d: nat| #[trigger] divides(d, a) && divides(d, b) ==> divides(d, g)
    }
}

/// `a` and `b` have no common divisor but 1.
pub open spec fn coprime(a: nat, b: nat) -> bool {
    gcd_spec(a, b) == 1
}

/// A divisor of `b` and of `a mod b` divides `a`, and a divisor of `a` and
/// `b` divides `a mod b`.
proof fn lemma_divides_remainder(d: nat, a: nat, b: nat)
    requires
        b > 0,
        divides(d, b),
    ensures
        divides(d, a) <==> divides(d, a % b),
{
    lemma_divides_quotient(d, b);
    lemma_fundamental_div_mod(a as int, b as int);
    let k: int = (b / d) as int;
    let q: int = (a / b) as int;
    let r: int = (a % b) as int;
    let di: int = d as int;
    assert(a as int == di * (k * q) + r) by {
        lemma_mul_is_associative(di, k, q);
    }
    lemma_mod_multiples_vanish(k * q, r, di);
}

/// The Euclidean recurrence yields the greatest common divisor.
pub proof fn lemma_gcd_is_gcd(a: nat, b: nat)
    ensures
        is_gcd(a, b, gcd_spec(a, b)),
        (a > 0 || b > 0) ==> gcd_spec(a, b) > 0,
    decreases b,
{
    if b == 0 {
        if a > 0 {
            lemma_divides_multiple(a, 1);
            lemma_divides_multiple(a, 0);
        }
    } else {
        lemma_gcd_is_gcd(b, a % b);
        let g: nat = gcd_spec(a, b);
        lemma_divides_remainder(g, a, b);
        assert forall|d: nat| #[trigger] divides(d, a) && divides(d, b) implies divides(d, g) by {
            lemma_divides_remainder(d, a, b);
        }
    }
}

/// The greatest common divisor is unique: whatever meets `is_gcd` is what
/// the Euclidean recurrence yields.
pub proof fn lemma_gcd_unique(a: nat, b: nat, g: nat)
    requires
        is_gcd(a, b, g),
    ensures
        g == gcd_spec(a, b),
{
    lemma_gcd_is_gcd(a, b);
    let h: nat = gcd_spec(a, b);
    if a > 0 || b > 0 {
        assert(divides(g, h));
        assert(divides(h, g));
        lemma_divides_quotient(g, h);
        lemma_divides_quotient(h, g);
    }
}

/// The greatest common divisor does not depend on the order of its
/// arguments.
pub proof fn lemma_gcd_symmetric(a: nat, b: nat)
    ensures
        gcd_spec(a, b) == gcd_spec(b, a),
{
    lemma_gcd_is_gcd(a, b);
    lemma_gcd_unique(b, a, gcd_spec(a, b));
}

/// Greatest common divisor by the Euclidean algorithm; `gcd(a, 0)` is `a`.
pub fn gcd(a: u64, b: u64) -> (g: u64)
    ensures
        g == gcd_spec(a as nat, b as nat),
        is_gcd(a as nat, b as nat, g as nat),
        b == 0 ==> g == a,
{
    let mut x: u64 = a;
    let mut y: u64 = b;
    while y != 0
        invariant
            gcd_spec(x as nat, y as nat) == gcd_spec(a as nat, b as nat),
        decreases y,
    {
        let r: u64 = x % y;
        x = y;
        y = r;
    }
    proof {
        lemma_gcd_is_gcd(a as nat, b as nat);
    }
    x
}

/// Coefficients `(x, y)` with `a * x + b * y == gcd(a, b)`.
pub open spec fn bezout(a: nat, b: nat) -> (int, int)
    decreases b,
{
    if b == 0 {
        (1, 0)
    } else {
        let (x, y) = bezout(b, a % b);
        (y, x - (a / b) * y)
    }
}

/// Bezout's identity: the greatest common divisor is an integer combination
/// of the two numbers.
pub proof fn lemma_bezout(a: nat, b: nat)
    ensures
        a * bezout(a, b).0 + b * bezout(a, b).1 == gcd_spec(a, b),
    decreases b,
{
    if b == 0 {
    } else {
        lemma_bezout(b, a % b);
        let (x, y) = bezout(b, a % b);
        let q: int = (a / b) as int;
        let r: int = (a % b) as int;
        let ai: int = a as int;
        let bi: int = b as int;
        lemma_fundamental_div_mod(ai, bi);
        assert(ai * y + bi * (x - q * y) == bi * x + r * y) by (nonlinear_arith)
            requires
                ai == bi * q + r,
        ;
    }
}

/// A number coprime to `n` can be cancelled from a congruence modulo `n`.
pub proof fn lemma_coprime_cancel(g: nat, n: nat, x: nat, y: nat)
    requires
        n > 0,
        coprime(g, n),
        (g * x) % n == (g * y) % n,
    ensures
        x % n == y % n,
{
    lemma_bezout(g, n);
    let u: int = bezout(g, n).0;
    let v: int = bezout(g, n).1;
    let gi: int = g as int;
    let ni: int = n as int;
    let xi: int = x as int;
    let yi: int = y as int;
    // u * g is 1 modulo n, so multiplying by u undoes multiplying by g.
    assert((u * gi) % ni == 1int % ni) by {
        lemma_mul_is_commutative(u, gi);
        assert(u * gi == ni * (-v) + 1) by (nonlinear_arith)
            requires
                gi * u + ni * v == 1,
        ;
        lemma_mod_multiples_vanish(-v, 1, ni);
    }
    assert(xi % ni == (u * (gi * xi)) % ni) by {
        lemma_undo(u, gi, ni, xi);
    }
    assert(yi % ni == (u * (gi * yi)) % ni) by {
        lemma_undo(u, gi, ni, yi);
    }
    lemma_mul_mod_noop_general(u, gi * xi, ni);
    lemma_mul_mod_noop_general(u, gi * yi, ni);
}

/// Where `u * g` is 1 modulo `n`, `u * (g * x)` is `x` modulo `n`.
proof fn lemma_undo(u: int, g: int, n: int, x: int)
    requires
        n > 0,
        (u * g) % n == 1int % n,
    ensures
        x % n == (u * (g * x)) % n,
{
    lemma_mul_is_associative(u, g, x);
    lemma_mul_mod_noop_general(u * g, x, n);
    lemma_mul_mod_noop_general(1, x, n);
    assert(1 * x == x);
}

/// A prime is coprime to everything it does not divide.
pub proof fn lemma_prime_coprime(p: nat, a: nat)
    requires
        is_prime_spec(p),
        !divides(p, a),
    ensures
        coprime(a, p),
{
    lemma_gcd_is_gcd(a, p);
    lemma_prime_divisors(p, gcd_spec(a, p));
}

/// Euclid's lemma: a prime that divides a product divides one of the
/// factors.
pub proof fn lemma_euclid(p: nat, a: nat, b: nat)
    requires
        is_prime_spec(p),
        divides(p, a * b),
    ensures
        divides(p, a) || divides(p, b),
{
    if !divides(p, a) {
        lemma_prime_coprime(p, a);
        assert(a * 0 == 0);
        lemma_small_mod(0, p);
        lemma_coprime_cancel(a, p, b, 0);
    }
}

/// A prime divides a product of a prime and a number exactly when it is
/// that prime or divides that number.
pub proof fn lemma_prime_divides_product(q: nat, p: nat, m: nat)
    requires
        is_prime_spec(q),
        is_prime_spec(p),
        m > 0,
    ensures
        divides(q, p * m) <==> (q == p || divides(q, m)),
{
    if divides(q, p * m) {
        lemma_euclid(q, p, m);
        if divides(q, p) {
            lemma_prime_divisors(p, q);
        }
    }
    if q == p {
        lemma_divides_multiple(p, m);
    }
    if divides(q, m) {
        lemma_divides_multiple(m, p);
        assert(divides(m, p * m));
        lemma_divides_transitive(q, m, p * m);
    }
}

} // verus!
