//! Prime factorization of unsigned 64-bit integers.
//!
//! Two strategies share one primality oracle: trial division, which always
//! answers, and period finding, the classical half of Shor's algorithm,
//! which answers where one of its witnesses splits the number.
//! [`factorize`] is the entry point; it reports the set of distinct prime
//! factors, without their multiplicities.
//!
//! Every function states what it computes over the definitions in
//! [`divisibility`], [`gcd`], [`factors`] and [`multiplicity`].

pub mod divisibility;
pub mod error;
pub mod facade;
pub mod factors;
pub mod gcd;
pub mod modular;
pub mod multiplicity;
pub mod oracle;
pub mod order;
pub mod period;
pub mod trial;

pub use crate::error::FactorError;
pub use crate::facade::{factorize, Strategy};
pub use crate::gcd::gcd;
pub use crate::modular::{mod_pow, mul_mod};
pub use crate::oracle::{is_prime_trial, PrimeOracle};
pub use crate::order::half_even_period;
pub use crate::period::{extract_factor, period_factor, try_witness};
pub use crate::trial::trial_factor;
