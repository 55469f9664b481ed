//! Lagrange interpolation over the prime field of characteristic five, with
//! dense fixed-capacity polynomials.
use vstd::prelude::*;

pub mod field;
pub mod polynomial;
pub mod algebra;
pub mod interpolation;

pub use field::{CHARACTERISTIC, modular_inverse, reduce};
pub use interpolation::{basis_polynomial, lagrange_interpolation};
pub use polynomial::{CAPACITY, FieldError, Polynomial};

verus! {

} // verus!
