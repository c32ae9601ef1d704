//! Polynomials as ordered vectors of scalar-field coefficients; in the
//! commitment engine a vector holds evaluations over the domain.
use vstd::prelude::*;
use crate::fr::Fr;

verus! {

/// An ordered sequence of field elements; the length never changes after
/// construction.
pub struct Poly {
    pub coeffs: Vec<Fr>,
}

impl Poly {
    /// Every coefficient is a reduced field element.
    pub open spec fn wf(&self) -> bool {
        forall|i: int| 0 <= i < self.coeffs.len() ==> (#[trigger] self.coeffs[i]).valid()
    }

    /// The all-zero polynomial of a given length.
    pub fn new(size: usize) -> (r: Poly)
        ensures
            r.wf(),
            r.coeffs.len() == size,
            forall|i: int| 0 <= i < size ==> (#[trigger] r.coeffs[i]).val() == 0,
    {
        let mut coeffs: Vec<Fr> = Vec::new();
        let mut i: usize = 0;
        while i < size
            invariant
                i <= size,
                coeffs.len() == i,
                forall|j: int| 0 <= j < i
                    ==> (#[trigger] coeffs[j]).valid() && coeffs[j].val() == 0,
            decreases size - i,
        {
            coeffs.push(Fr::zero());
            i = i + 1;
        }
        Poly { coeffs }
    }

    /// Wraps an owned coefficient vector.
    pub fn from_coeffs(coeffs: Vec<Fr>) -> (r: Poly)
        ensures
            r.coeffs == coeffs,
    {
        Poly { coeffs }
    }

    /// The number of coefficients.
    pub fn len(&self) -> (r: usize)
        ensures
            r == self.coeffs.len(),
    {
        self.coeffs.len()
    }

    /// The coefficient at one index.
    pub fn get_coeff_at(&self, i: usize) -> (r: Fr)
        requires
            i < self.coeffs.len(),
        ensures
            r == self.coeffs[i as int],
    {
        self.coeffs[i]
    }
}

} // verus!
