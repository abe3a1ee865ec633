//! The ways in which a computation of this crate can fail.

use vstd::prelude::*;

verus! {

/// The curve parameters do not fit together.
#[derive(Clone, Copy, Debug, PartialEq, Eq, Structural)]
pub enum ConfigurationError {
    /// No point of the curve passes the test for a generator of the given
    /// order.
    NoGenerator,
    /// The modulus is not 1 modulo 3, or no base below it yields a cube root
    /// of unity other than 1.
    NoCubeRoot,
    /// The polynomial `x^2 + x + 1` has no root from 2 up modulo the group
    /// order.
    NoLambda,
}

/// A solver came back without a logarithm.
#[derive(Clone, Copy, Debug, PartialEq, Eq, Structural)]
pub enum SolveError {
    /// The parameters handed to the solver do not fit together.
    Configuration(ConfigurationError),
    /// The search ran through all of its `steps` steps and met nothing.
    SearchExhausted { steps: u64 },
}

} // verus!
