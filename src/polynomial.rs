//! Polynomials in coefficient form.
use crate::field::{all_wf, Scalar};
use vstd::prelude::*;

verus! {

/// A polynomial by its coefficients, lowest degree first, with no zero
/// coefficient at the top.
#[derive(Clone, Debug, PartialEq, Eq, Hash)]
pub struct DensePolynomial {
    pub coeffs: Vec<Scalar>,
}

impl DensePolynomial {
    /// No coefficient is zero at the top end.
    pub open spec fn is_trimmed(s: Seq<Scalar>) -> bool {
        s.len() == 0 || s.last().value() != 0
    }

    /// The polynomial with coefficients `coeffs`, with the zero
    /// coefficients at the top end dropped.
    pub fn from_coefficients_vec(coeffs: Vec<Scalar>) -> (r: DensePolynomial)
        requires
            all_wf(coeffs@),
        ensures
            r.coeffs@ == coeffs@.take(r.coeffs@.len() as int),
            r.coeffs@.len() <= coeffs@.len(),
            forall|i: int| r.coeffs@.len() <= i < coeffs@.len() ==> (#[trigger] coeffs@[i]).value() == 0,
            Self::is_trimmed(r.coeffs@),
    {
        let mut c = coeffs;
        while c.len() > 0 && c[c.len() - 1].is_zero()
            invariant
                c@.len() <= coeffs@.len(),
                c@ == coeffs@.take(c@.len() as int),
                all_wf(c@),
                forall|i: int| c@.len() <= i < coeffs@.len() ==> (#[trigger] coeffs@[i]).value() == 0,
            decreases c@.len(),
        {
            c.pop();
        }
        DensePolynomial { coeffs: c }
    }
}

} // verus!
