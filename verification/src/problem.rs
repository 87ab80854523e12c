//! Work counters and the adapter that turns a function into a problem.

use vstd::prelude::*;

verus! {

/// Counters for the work a run actually performed.
///
/// These are what the cost analysis plots against the achieved accuracy, so
/// every implementation increments them at exactly one place.
#[derive(Clone, Copy, Debug, PartialEq, Eq, Structural)]
pub struct Stats {
    pub steps: u64,
    pub accepted: u64,
    pub rejected: u64,
    pub rhs_evals: u64,
    pub jacobian_evals: u64,
    pub lu_decompositions: u64,
    pub linear_solves: u64,
    pub nonlinear_iterations: u64,
    pub nonlinear_failures: u64,
}

/// Counters that have counted nothing yet.
pub open spec fn no_work() -> Stats {
    Stats {
        steps: 0,
        accepted: 0,
        rejected: 0,
        rhs_evals: 0,
        jacobian_evals: 0,
        lu_decompositions: 0,
        linear_solves: 0,
        nonlinear_iterations: 0,
        nonlinear_failures: 0,
    }
}

impl Default for Stats {
    fn default() -> (s: Stats)
        ensures
            s == no_work(),
    {
        Stats {
            steps: 0,
            accepted: 0,
            rejected: 0,
            rhs_evals: 0,
            jacobian_evals: 0,
            lu_decompositions: 0,
            linear_solves: 0,
            nonlinear_iterations: 0,
            nonlinear_failures: 0,
        }
    }
}

impl Stats {
    /// Set every counter back to zero.
    pub fn reset(&mut self)
        ensures
            *final(self) == no_work(),
    {
        *self = Stats::default();
    }
}

/// Adapter that turns a closure into a problem of the given dimension.
pub struct OdeFn<F> {
    dim: usize,
    f: F,
}

impl<F> OdeFn<F> {
    pub closed spec fn spec_dim(&self) -> usize {
        self.dim
    }

    pub closed spec fn spec_function(&self) -> F {
        self.f
    }

    pub fn new(dim: usize, f: F) -> (p: Self)
        ensures
            p.spec_dim() == dim,
            p.spec_function() == f,
    {
        OdeFn { dim, f }
    }

    /// The dimension of the system.
    pub fn dim(&self) -> (d: usize)
        ensures
            d == self.spec_dim(),
    {
        self.dim
    }

    /// The right hand side.
    pub fn function(&self) -> (f: &F)
        ensures
            *f == self.spec_function(),
    {
        &self.f
    }
}

} // verus!
