//! The even period of a witness: the least even exponent that takes it to
//! 1 modulo `n`. Such an exponent exists for every witness coprime to `n`,
//! which is what lets the search for it run without a bound.

use vstd::prelude::*;
use vstd::arithmetic::div_mod::{
    lemma_mul_mod_noop_general,
    lemma_small_mod,
};
use vstd::arithmetic::power::{
    lemma_pow0,
    lemma_pow1,
    lemma_pow_adds,
    lemma_square_is_pow2,
    pow,
};
use crate::gcd::{coprime, lemma_coprime_cancel};
use crate::modular::{lemma_pow_mod_bound, mul_mod, pow_mod};

verus! {

/// `r` is the even period of `g` modulo `n`: the least even exponent from 2
/// on with `g^r = 1 (mod n)`.
pub open spec fn is_even_period(n: nat, g: nat, r: nat) -> bool {
    &&& r >= 2
    &&& r % 2 == 0
    &&& pow_mod(g, r, n) == 1
    &&& forall|e: nat| 2 <= e < r && e % 2 == 0 ==> #[trigger] pow_mod(g, e, n) != 1
}

/// The even period of `g` modulo `n`, where there is one.
pub open spec fn even_period(n: nat, g: nat) -> nat {
    choose|r: nat| is_even_period(n, g, r)
}

/// There is at most one even period.
pub proof fn lemma_even_period_unique(n: nat, g: nat, r: nat)
    requires
        is_even_period(n, g, r),
    ensures
        even_period(n, g) == r,
{
    let chosen: nat = even_period(n, g);
    assert(is_even_period(n, g, chosen));
    if chosen < r {
        assert(pow_mod(g, chosen, n) != 1);
    }
    if r < chosen {
        assert(pow_mod(g, r, n) != 1);
    }
}

/// The pigeonhole principle: of `holes + 1` values below `holes`, two are
/// equal. The result names the places of two such values.
pub proof fn lemma_pigeonhole(f: spec_fn(nat) -> nat, holes: nat) -> (pair: (nat, nat))
    requires
        forall|i: nat| i <= holes ==> #[trigger] f(i) < holes,
    ensures
        pair.0 < pair.1 <= holes,
        f(pair.0) == f(pair.1),
    decreases holes,
{
    if holes == 0 {
        assert(f(0) < 0);
        (0, 0)
    } else if exists|i: nat| i < holes && #[trigger] f(i) == f(holes) {
        let i: nat = choose|i: nat| i < holes && #[trigger] f(i) == f(holes);
        (i, holes)
    } else {
        // No earlier value equals the last one: move whatever sits in the
        // last hole to the hole of the last value, and drop both.
        let last: nat = f(holes);
        let top: nat = (holes - 1) as nat;
        let moved = |i: nat|
            if f(i) == top {
                last
            } else {
                f(i)
            };
        assert forall|i: nat| i <= top implies #[trigger] moved(i) < top by {
            assert(f(i) < holes);
            assert(f(i) != f(holes));
        }
        let (i, j) = lemma_pigeonhole(moved, top);
        assert(f(i) != f(holes));
        assert(f(j) != f(holes));
        (i, j)
    }
}

/// A power of `g` can be cancelled from a congruence between two powers of
/// `g`, where `g` is coprime to the modulus.
pub proof fn lemma_pow_cancel(g: nat, n: nat, i: nat, k: nat)
    requires
        n >= 2,
        coprime(g, n),
        pow_mod(g, i + k, n) == pow_mod(g, i, n),
    ensures
        pow_mod(g, k, n) == 1,
    decreases i,
{
    if i == 0 {
        lemma_pow0(g as int);
        lemma_small_mod(1, n);
    } else {
        let shorter: nat = (i - 1) as nat;
        lemma_pow_adds(g as int, 1, shorter + k);
        lemma_pow_adds(g as int, 1, shorter);
        lemma_pow1(g as int);
        lemma_pow_mod_bound(g, shorter + k, n);
        lemma_pow_mod_bound(g, shorter, n);
        lemma_pow_mod_bound(g, i + k, n);
        lemma_pow_mod_bound(g, i, n);
        let x: nat = pow(g as int, shorter + k) as nat;
        let y: nat = pow(g as int, shorter) as nat;
        assert(1 + (shorter + k) == i + k);
        assert(1 + shorter == i);
        assert((g * x) % n == (g * y) % n);
        lemma_coprime_cancel(g, n, x, y);
        lemma_pow_cancel(g, n, shorter, k);
    }
}

/// Every number coprime to `n` has a power, with an exponent from 1 to `n`,
/// that is 1 modulo `n`; the square of that power is 1 too. The result is
/// such an exponent.
pub proof fn lemma_period_exists(n: nat, g: nat) -> (k: nat)
    requires
        n >= 2,
        coprime(g, n),
    ensures
        1 <= k <= n,
        pow_mod(g, k, n) == 1,
        pow_mod(g, 2 * k, n) == 1,
{
    let residues = |i: nat| pow_mod(g, i, n);
    assert forall|i: nat| i <= n implies #[trigger] residues(i) < n by {
        lemma_pow_mod_bound(g, i, n);
    }
    let (i, j) = lemma_pigeonhole(residues, n);
    let k: nat = (j - i) as nat;
    assert(i + k == j);
    assert(residues(i) == residues(j));
    lemma_pow_cancel(g, n, i, k);
    lemma_pow_adds(g as int, k, k);
    lemma_pow_mod_bound(g, k, n);
    lemma_mul_mod_noop_general(pow(g as int, k), pow(g as int, k), n as int);
    lemma_small_mod(1, n);
    assert(2 * k == k + k);
    k
}

/// Multiplying a power of `g` by the square of `g`, modulo `n`, raises the
/// exponent by 2.
proof fn lemma_two_more(g: nat, e: nat, n: nat)
    requires
        n > 0,
    ensures
        (pow_mod(g, e, n) * (((g % n) * (g % n)) % n)) % n == pow_mod(g, e + 2, n),
        ((g % n) * (g % n)) % n == pow_mod(g, 2, n),
{
    let gi: int = g as int;
    let ni: int = n as int;
    lemma_pow_mod_bound(g, e, n);
    lemma_pow_mod_bound(g, e + 2, n);
    lemma_pow_mod_bound(g, 2, n);
    lemma_pow_adds(gi, e, 2);
    lemma_square_is_pow2(gi);
    lemma_mul_mod_noop_general(gi, gi, ni);
    lemma_mul_mod_noop_general(pow(gi, e), gi * gi, ni);
}

/// Exponent estimation: the even period of the witness `g` modulo `n`,
/// returned as its half. Starting from `g^2`, the power is multiplied by
/// `g^2` until it is 1.
///
/// The half is what fits: the period itself is at most `2 * n`, which a
/// 64-bit word need not hold.
pub fn half_even_period(n: u64, g: u64) -> (half: u64)
    requires
        n >= 2,
        coprime(g as nat, n as nat),
    ensures
        is_even_period(n as nat, g as nat, 2 * (half as nat)),
        even_period(n as nat, g as nat) == 2 * half,
        1 <= half <= n,
{
    let reduced: u64 = g % n;
    let square: u64 = mul_mod(reduced, reduced, n);
    let mut half: u64 = 1;
    let mut power: u64 = square;
    let ghost bound: nat = lemma_period_exists(n as nat, g as nat);
    proof {
        lemma_two_more(g as nat, 0, n as nat);
    }
    while power != 1
        invariant
            n >= 2,
            1 <= half <= bound <= n,
            pow_mod(g as nat, 2 * bound, n as nat) == 1,
            power == pow_mod(g as nat, 2 * (half as nat), n as nat),
            square == ((g as nat % n as nat) * (g as nat % n as nat)) % (n as nat),
            forall|e: nat|
                2 <= e < 2 * half && e % 2 == 0 ==> #[trigger] pow_mod(g as nat, e, n as nat) != 1,
        decreases bound - half,
    {
        proof {
            lemma_two_more(g as nat, 2 * (half as nat), n as nat);
            assert(2 * (half as nat) + 2 == 2 * ((half + 1) as nat));
        }
        half += 1;
        power = mul_mod(power, square, n);
    }
    proof {
        lemma_even_period_unique(n as nat, g as nat, 2 * (half as nat));
    }
    half
}

} // verus!
