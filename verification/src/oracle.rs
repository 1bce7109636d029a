//! The primality oracle: trial division on a wheel of 2, 3, 5 and 7, and a
//! cache of verdicts that the caller owns.

use std::collections::HashMap;
use num_integer::Roots;
use vstd::prelude::*;
use crate::divisibility::{
    divides,
    is_prime_spec,
    lemma_divides_transitive,
    lemma_prime_iff_trial_division,
    lemma_small_primes,
    survives_trial_division,
};

verus! {

/// `r` is the floor of the square root of `n`.
pub open spec fn is_floor_sqrt(n: nat, r: nat) -> bool {
    r * r <= n < (r + 1) * (r + 1)
}

/// Integer square root, by `num_integer::Roots::sqrt` on `u64`. That
/// function documents its result `r` as the truncated root, with
/// `r * r <= n < (r + 1) * (r + 1)`, and has no failing input on unsigned
/// numbers; this contract repeats the bound and is not proved here.
#[verifier::external_body]
fn integer_sqrt(n: u64) -> (r: u64)
    ensures
        is_floor_sqrt(n as nat, r as nat),
{
    Roots::sqrt(&n)
}

/// The floor of the square root of a 64-bit number fits in 32 bits, and
/// from 2 on it lies below the number.
proof fn lemma_floor_sqrt_bounds(n: nat, r: nat)
    requires
        is_floor_sqrt(n, r),
        n <= u64::MAX,
    ensures
        r < 0x1_0000_0000,
        r >= 2 ==> r < n,
{
    assert(r < 0x1_0000_0000) by (nonlinear_arith)
        requires
            r * r <= n,
            n <= 0xffff_ffff_ffff_ffff,
    ;
    if r >= 2 {
        assert(r < n) by (nonlinear_arith)
            requires
                r * r <= n,
                r >= 2,
        ;
    }
}

/// Whatever squares to at most `n` is at most the floor of its square root.
proof fn lemma_below_floor_sqrt(n: nat, r: nat, d: nat)
    requires
        is_floor_sqrt(n, r),
        d * d <= n,
    ensures
        d <= r,
{
    assert(d <= r) by (nonlinear_arith)
        requires
            d * d <= n,
            n < (r + 1) * (r + 1),
    ;
}

/// Decides primality by trial division. Even numbers and multiples of 3, 5
/// and 7 are settled at once; after that every odd candidate from 11 up to
/// the floor of the square root is tried, but for the candidates that 3, 5
/// or 7 divides, which cannot divide a number that none of the three
/// divides.
pub fn is_prime_trial(n: u64) -> (verdict: bool)
    ensures
        verdict == is_prime_spec(n as nat),
        verdict == survives_trial_division(n as nat),
{
    proof {
        lemma_prime_iff_trial_division(n as nat);
    }
    if n % 2 == 0 || n == 1 {
        proof {
            if n > 2 {
                assert(divides(2, n as nat));
            }
            if n == 2 {
                lemma_small_primes();
            }
        }
        return n == 2;
    }
    if n == 3 || n == 5 || n == 7 {
        proof {
            lemma_small_odd_primes();
        }
        return true;
    }
    if n % 3 == 0 || n % 5 == 0 || n % 7 == 0 {
        proof {
            assert(divides(3, n as nat) || divides(5, n as nat) || divides(7, n as nat));
        }
        return false;
    }
    let root: u64 = integer_sqrt(n);
    proof {
        lemma_floor_sqrt_bounds(n as nat, root as nat);
        assert forall|d: nat| 1 < d < 11 implies !#[trigger] divides(d, n as nat) by {
            lemma_wheel_skips_no_divisor(n as nat, d);
        }
    }
    let mut i: u64 = 11;
    while i <= root
        invariant
            11 <= i,
            i % 2 == 1,
            root < 0x1_0000_0000,
            root >= 2 ==> root < n,
            is_floor_sqrt(n as nat, root as nat),
            n % 2 != 0,
            n % 3 != 0,
            n % 5 != 0,
            n % 7 != 0,
            n >= 2,
            forall|d: nat| 1 < d < i ==> !#[trigger] divides(d, n as nat),
        decreases root + 2 - i,
    {
        if i % 3 != 0 && i % 5 != 0 && i % 7 != 0 {
            if n % i == 0 {
                proof {
                    assert(divides(i as nat, n as nat));
                    lemma_prime_iff_trial_division(n as nat);
                }
                return false;
            }
        }
        proof {
            lemma_wheel_skips_no_divisor(n as nat, i as nat);
            lemma_wheel_skips_no_divisor(n as nat, (i + 1) as nat);
        }
        i += 2;
    }
    proof {
        lemma_prime_iff_trial_division(n as nat);
        assert forall|d: nat| 1 < d && d * d <= n as nat implies !#[trigger] divides(
            d,
            n as nat,
        ) by {
            lemma_below_floor_sqrt(n as nat, root as nat, d);
        }
    }
    true
}

/// 3, 5 and 7 are prime.
proof fn lemma_small_odd_primes()
    ensures
        is_prime_spec(3),
        is_prime_spec(5),
        is_prime_spec(7),
{
    assert forall|d: nat| 1 < d < 3 implies !#[trigger] divides(d, 3) by {
        assert(d == 2);
    }
    assert forall|d: nat| 1 < d < 5 implies !#[trigger] divides(d, 5) by {
        assert(d == 2 || d == 3 || d == 4);
    }
    assert forall|d: nat| 1 < d < 7 implies !#[trigger] divides(d, 7) by {
        assert(d == 2 || d == 3 || d == 4 || d == 5 || d == 6);
    }
}

/// A candidate that 2, 3, 5 or 7 divides cannot divide a number that none
/// of the four divides.
proof fn lemma_wheel_skips_no_divisor(n: nat, c: nat)
    requires
        n % 2 != 0,
        n % 3 != 0,
        n % 5 != 0,
        n % 7 != 0,
        c % 2 == 0 || c % 3 == 0 || c % 5 == 0 || c % 7 == 0 || n % c != 0,
        c > 0,
    ensures
        !divides(c, n),
{
    if divides(c, n) {
        if c % 2 == 0 {
            lemma_divides_transitive(2, c, n);
        } else if c % 3 == 0 {
            lemma_divides_transitive(3, c, n);
        } else if c % 5 == 0 {
            lemma_divides_transitive(5, c, n);
        } else if c % 7 == 0 {
            lemma_divides_transitive(7, c, n);
        }
    }
}

/// The verdict that a cache in state `cache` gives on `n`, and the state
/// that the query leaves: a verdict already held is handed back with the
/// cache as it was, a new one is computed and stored.
pub open spec fn query(cache: Map<u64, bool>, n: u64) -> (Map<u64, bool>, bool) {
    if cache.contains_key(n) {
        (cache, cache[n])
    } else {
        (cache.insert(n, is_prime_spec(n as nat)), is_prime_spec(n as nat))
    }
}

/// Every verdict that `cache` holds is the truth about its key.
pub open spec fn holds_true_verdicts(cache: Map<u64, bool>) -> bool {
    forall|k: u64| #[trigger] cache.contains_key(k) ==> cache[k] == is_prime_spec(k as nat)
}

/// A primality oracle with its cache of verdicts, keyed by the number
/// tested. The cache only grows, and whoever owns the oracle owns the cache.
pub struct PrimeOracle {
    cache: HashMap<u64, bool>,
}

impl View for PrimeOracle {
    type V = Map<u64, bool>;

    /// The verdicts held, by the number tested.
    closed spec fn view(&self) -> Map<u64, bool> {
        self.cache@
    }
}

impl PrimeOracle {
    /// What every oracle keeps: its cache holds only true verdicts. `new`
    /// establishes it and every method preserves it.
    pub open spec fn well_formed(&self) -> bool {
        holds_true_verdicts(self@)
    }

    /// An oracle with an empty cache.
    pub fn new() -> (oracle: Self)
        ensures
            oracle@ == Map::<u64, bool>::empty(),
            oracle.well_formed(),
    {
        PrimeOracle { cache: HashMap::new() }
    }

    /// Whether `n` is prime. The first query for `n` decides it by trial
    /// division and stores the verdict; later ones return what was stored
    /// and leave the cache as it is.
    pub fn is_prime(&mut self, n: u64) -> (verdict: bool)
        requires
            old(self).well_formed(),
        ensures
            verdict == is_prime_spec(n as nat),
            verdict == survives_trial_division(n as nat),
            (final(self)@, verdict) == query(old(self)@, n),
            final(self).well_formed(),
            old(self)@.submap_of(final(self)@),
    {
        proof {
            lemma_prime_iff_trial_division(n as nat);
        }
        match self.cached(n) {
            Some(v) => v,
            None => {
                let v: bool = is_prime_trial(n);
                self.cache.insert(n, v);
                v
            },
        }
    }

    /// The verdict stored for `n`, if this oracle was asked about it.
    pub fn cached(&self, n: u64) -> (held: Option<bool>)
        ensures
            held == (if self@.contains_key(n) {
                Some(self@[n])
            } else {
                None
            }),
    {
        match self.cache.get(&n) {
            Some(v) => Some(*v),
            None => None,
        }
    }
}

/// Asking twice is asking once: the second query returns the verdict of
/// the first and leaves the cache as the first left it.
pub proof fn lemma_query_idempotent(cache: Map<u64, bool>, n: u64)
    ensures
        query(query(cache, n).0, n) == query(cache, n),
{
    let (after, verdict) = query(cache, n);
    assert(after.contains_key(n));
}

/// On a cache of true verdicts every query returns the truth and leaves a
/// cache of true verdicts that extends the one before.
pub proof fn lemma_query_truthful(cache: Map<u64, bool>, n: u64)
    requires
        holds_true_verdicts(cache),
    ensures
        query(cache, n).1 == is_prime_spec(n as nat),
        holds_true_verdicts(query(cache, n).0),
        cache.submap_of(query(cache, n).0),
{
}

} // verus!
