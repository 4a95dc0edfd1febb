//! Polynomials in evaluation form over a prime field, and the canonical
//! parity (sign) of elements of a field tower.
use vstd::prelude::*;

pub mod domain;
pub mod evaluations;
pub mod field;
pub mod interpolation;
pub mod parity;
pub mod polynomial;

verus! {

} // verus!
