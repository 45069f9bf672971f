use vstd::prelude::*;

verus! {

/// A sparse formal sum over a base ring `R` graded by an ordered additive
/// monoid `G`: a list of `(coefficient, grade)` terms.
///
/// The algebraic operations live on the concrete instantiations: cyclotomic
/// numbers grade integer coefficients by the Prüfer group, and polynomials
/// grade cyclotomic coefficients by natural exponents.
#[derive(Debug)]
pub struct GradedAlgebra<R, G> {
    pub terms: Vec<(R, G)>,
}

impl<R, G> GradedAlgebra<R, G> {
    pub fn from_terms(terms: Vec<(R, G)>) -> (r: Self)
        ensures
            r.terms == terms,
    {
        Self { terms }
    }

    pub fn get_terms(&self) -> (r: &Vec<(R, G)>)
        ensures
            r == self.terms,
    {
        &self.terms
    }

    pub fn take_terms(self) -> (r: Vec<(R, G)>)
        ensures
            r == self.terms,
    {
        self.terms
    }
}

} // verus!
