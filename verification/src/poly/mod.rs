//! Polynomials, the rings of their coefficients and the type of their
//! exponents.

pub mod exponent;
pub mod integer;
pub mod raw;
pub mod ring;
