//! The ways in which an operation of this crate fails.

use vstd::prelude::*;

verus! {

/// Why an operation was refused or a proof rejected.
#[derive(Clone, Copy, Debug, PartialEq, Eq, Structural)]
pub enum CommitmentError {
    /// Vectors whose lengths must agree, or be a power of two, do not.
    LengthMismatch,
    /// A blinding polynomial does not have the degree of the polynomial that
    /// it is to blind.
    InvalidDegree,
    /// A proof does not check.
    VerificationFailed,
    /// Zero was to be inverted.
    DivisionByZero,
}

} // verus!
