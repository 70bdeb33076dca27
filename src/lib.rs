//! Exact rational arithmetic and rational-coefficient polynomials, with a
//! search for rational roots by the rational root theorem.

pub mod number;
pub mod polynomial;
