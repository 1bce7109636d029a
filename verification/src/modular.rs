//! Modular multiplication and exponentiation on 64-bit words.

use vstd::prelude::*;
use vstd::arithmetic::div_mod::{
    lemma_mod_bound,
    lemma_mul_mod_noop_general,
    lemma_small_mod,
};
use vstd::arithmetic::mul::{
    lemma_mul_is_associative,
    lemma_mul_nonnegative,
};
use vstd::arithmetic::power::{
    lemma_pow0,
    lemma_pow1,
    lemma_pow_adds,
    lemma_pow_mod_noop,
    lemma_pow_multiplies,
    lemma_pow_positive,
    lemma_square_is_pow2,
    pow,
};
use crate::error::FactorError;

verus! {

/// `base` to the power `exponent`, reduced modulo `modulus`.
pub open spec fn pow_mod(base: nat, exponent: nat, modulus: nat) -> nat {
    (pow(base as int, exponent) % (modulus as int)) as nat
}

/// A power of a natural number is a natural number, and its residue lies
/// below the modulus.
pub proof fn lemma_pow_mod_bound(base: nat, exponent: nat, modulus: nat)
    requires
        modulus > 0,
    ensures
        pow(base as int, exponent) >= 0,
        pow_mod(base, exponent, modulus) < modulus,
        pow_mod(base, exponent, modulus) == pow(base as int, exponent) % (modulus as int),
{
    if base == 0 {
        if exponent == 0 {
            lemma_pow0(0);
        } else {
            vstd::arithmetic::power::lemma0_pow(exponent);
        }
    } else {
        lemma_pow_positive(base as int, exponent);
    }
    lemma_mod_bound(pow(base as int, exponent), modulus as int);
}

/// The product of `a` and `b` modulo `m`, through a 128-bit product that
/// cannot overflow.
pub fn mul_mod(a: u64, b: u64, m: u64) -> (r: u64)
    requires
        m > 0,
    ensures
        r == (a * b) % (m as int),
        r < m,
{
    proof {
        lemma_mul_nonnegative(a as int, b as int);
        assert(a * b <= 0xffff_ffff_ffff_ffff * 0xffff_ffff_ffff_ffff) by (nonlinear_arith)
            requires
                0 <= a <= 0xffff_ffff_ffff_ffff,
                0 <= b <= 0xffff_ffff_ffff_ffff,
        ;
        lemma_mod_bound(a * b, m as int);
    }
    let wide: u128 = (a as u128) * (b as u128);
    (wide % (m as u128)) as u64
}

/// One round of square-and-multiply keeps `acc * base^e` unchanged modulo
/// `m`.
proof fn lemma_square_and_multiply(acc: int, base: int, e: nat, m: int)
    requires
        m > 0,
        e > 0,
    ensures
        e % 2 == 1 ==> (((acc * base) % m) * pow((base * base) % m, e / 2)) % m == (acc * pow(
            base,
            e,
        )) % m,
        e % 2 == 0 ==> (acc * pow((base * base) % m, e / 2)) % m == (acc * pow(base, e)) % m,
{
    let half: nat = e / 2;
    let squared: int = (base * base) % m;
    // pow(squared, half) is pow(base, 2 * half) modulo m.
    lemma_pow_mod_noop(base * base, half, m);
    lemma_square_is_pow2(base);
    lemma_pow_multiplies(base, 2, half);
    assert(pow(squared, half) % m == pow(base, 2 * half) % m);
    if e % 2 == 0 {
        assert(2 * half == e);
        lemma_mul_mod_noop_general(acc, pow(squared, half), m);
        lemma_mul_mod_noop_general(acc, pow(base, e), m);
    } else {
        assert(2 * half + 1 == e);
        lemma_pow_adds(base, 1, 2 * half);
        lemma_pow1(base);
        assert(pow(base, e) == base * pow(base, 2 * half));
        lemma_mul_is_associative(acc, base, pow(base, 2 * half));
        lemma_mul_mod_noop_general((acc * base) % m, pow(squared, half), m);
        lemma_mul_mod_noop_general(acc * base, pow(base, 2 * half), m);
        lemma_mul_mod_noop_general(acc * base, pow(base, 2 * half) % m, m);
        lemma_mul_mod_noop_general(acc * base, pow(squared, half), m);
    }
}

/// Modular exponentiation by squaring: `base^exponent mod modulus`, the
/// bits of the exponent taken from the lowest up. A modulus of 0 or 1 is
/// refused.
pub fn mod_pow(base: u64, exponent: u64, modulus: u64) -> (r: Result<u64, FactorError>)
    ensures
        modulus <= 1 ==> r == Err::<u64, FactorError>(FactorError::DegenerateModulus),
        modulus > 1 ==> r == Ok::<u64, FactorError>(
            pow_mod(base as nat, exponent as nat, modulus as nat) as u64,
        ),
        r matches Ok(v) ==> v < modulus,
{
    if modulus <= 1 {
        return Err(FactorError::DegenerateModulus);
    }
    let mut acc: u64 = 1;
    let mut b: u64 = base % modulus;
    let mut e: u64 = exponent;
    proof {
        lemma_pow_mod_noop(base as int, exponent as nat, modulus as int);
        lemma_mul_mod_noop_general(1, pow(b as int, e as nat), modulus as int);
        assert(1 * pow(b as int, e as nat) == pow(b as int, e as nat));
        assert(1 * pow(base as int, e as nat) == pow(base as int, e as nat));
    }
    while e > 0
        invariant
            modulus > 1,
            acc < modulus,
            b < modulus,
            (acc * pow(b as int, e as nat)) % (modulus as int) == pow(
                base as int,
                exponent as nat,
            ) % (modulus as int),
        decreases e,
    {
        proof {
            lemma_square_and_multiply(acc as int, b as int, e as nat, modulus as int);
        }
        if e % 2 == 1 {
            acc = mul_mod(acc, b, modulus);
        }
        b = mul_mod(b, b, modulus);
        e = e / 2;
    }
    proof {
        lemma_pow0(b as int);
        lemma_small_mod(acc as nat, modulus as nat);
        lemma_pow_mod_bound(base as nat, exponent as nat, modulus as nat);
    }
    Ok(acc)
}

} // verus!
