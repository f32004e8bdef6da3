//! Curvature of agent belief space via the Fisher information metric.
//! The geometry itself is floating-point and is not computed here; this
//! module holds the dimension of the belief space.
use vstd::prelude::*;

verus! {

/// Belief space curvature computation using the Fisher information metric.
#[derive(Debug, Clone, Copy)]
pub struct BeliefSpaceCurvature {
    /// Number of belief categories.
    pub categories: usize,
}

impl BeliefSpaceCurvature {
    pub fn new(categories: usize) -> (r: Self)
        ensures
            r.categories == categories,
    {
        Self { categories }
    }

    /// Dimension of the simplex coordinates (`categories - 1`, or 0 for at
    /// most one category): the size of the Fisher matrix and of each index
    /// of the Christoffel symbols and the Riemann tensor.
    pub fn coordinate_dim(&self) -> (k: usize)
        ensures
            k == (if self.categories <= 1 { 0 } else { self.categories - 1 }),
    {
        if self.categories <= 1 {
            0
        } else {
            self.categories - 1
        }
    }
}

} // verus!
