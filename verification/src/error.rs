//! The failures that the library reports.

use vstd::prelude::*;

verus! {

/// Why a computation gave no result.
#[derive(Clone, Copy, Debug, PartialEq, Eq, Structural)]
pub enum FactorError {
    /// A modular power was asked for modulo 0 or 1.
    DegenerateModulus,
    /// Period finding tried every witness up to its limit and none split
    /// the number.
    WitnessesExhausted,
}

} // verus!
