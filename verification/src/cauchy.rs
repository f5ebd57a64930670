use vstd::prelude::*;
use crate::integration::ContourIntegrator;

verus! {

/// Cauchy's integral formula and theorem, evaluated with a contour integrator.
pub struct CauchyIntegral {
    integrator: ContourIntegrator,
}

impl CauchyIntegral {
    /// The number of quadrature points of the integrator in use.
    pub closed spec fn spec_n_points(&self) -> usize {
        self.integrator.n_points
    }

    /// Cauchy integrals evaluated with `n_points` quadrature points.
    pub fn new(n_points: usize) -> (r: Self)
        ensures
            r.spec_n_points() == n_points,
    {
        CauchyIntegral { integrator: ContourIntegrator::new(n_points) }
    }

    /// The contour integrator in use.
    pub fn integrator(&self) -> (r: &ContourIntegrator)
        ensures
            r.n_points == self.spec_n_points(),
    {
        &self.integrator
    }
}

impl Default for CauchyIntegral {
    fn default() -> (r: Self)
        ensures
            r.spec_n_points() == 50000,
    {
        Self::new(50000)
    }
}

} // verus!
