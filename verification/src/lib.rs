//! Exact symbolic arithmetic: sparse multivariate polynomials over a
//! commutative ring, modular arithmetic in Zp, and a linear solver over Zp.
//!
//! A polynomial is kept in canonical form: its terms are sorted by their
//! exponent vectors and none has the coefficient zero, so that a polynomial
//! has one representation. Every operation states its result over the
//! coefficients that the terms give to the monomials.

pub mod error;
pub mod poly;
pub mod structure;
