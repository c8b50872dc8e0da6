//! The representations that do the work: modular integers with a linear
//! solver, and the sparse term list of a multivariate polynomial with its
//! arithmetic, its division and its transforms.

pub mod arithmetic;
pub mod decompose;
pub mod division;
pub mod division_theory;
pub mod finitefield;
pub mod heap;
pub mod laws;
pub mod leading;
pub mod linear;
pub mod monomial;
pub mod multivar;
pub mod quotient;
pub mod solver;
pub mod synthetic;
pub mod terms;
pub mod transform;
pub mod zp;
