//! The failures that the arithmetic of this crate reports.

use vstd::prelude::*;

verus! {

/// Why an operation gave no result.
#[derive(Clone, Copy, Debug, PartialEq, Eq, Structural)]
pub enum KernelError {
    /// The number of variables, or the size of a matrix or vector, does not fit.
    DimensionMismatch,
    /// The value has no multiplicative inverse for the given modulus.
    NotInvertible,
    /// The linear system has no pivot in some column.
    Singular,
    /// The sum of two exponents is too large for the exponent type.
    Overflow,
}

} // verus!
