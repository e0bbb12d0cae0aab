//! A computer algebra system over rational numbers: numbers, monomials,
//! polynomials and expressions.
use vstd::prelude::*;

pub mod context;
pub mod error;
pub mod expr;
pub mod monomial;
pub mod number;
pub mod polynomial;
pub mod rational;
pub mod render;
pub mod text;

verus! {

/// The library version currently in use.
pub const VERSION: &'static str = "0.1.0";

} // verus!
