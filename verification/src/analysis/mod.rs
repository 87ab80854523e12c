//! Analysis of methods from their coefficients: rooted trees and the order
//! conditions they index.

pub mod additive;
pub mod agreement;
pub mod coloured;
pub mod conditions;
pub mod convergence;
pub mod order;
pub mod pairs;
pub mod rosenbrock;
pub mod shape;
pub mod tags;

use vstd::prelude::*;

verus! {

/// The value a stability limit along a ray takes when the whole ray is
/// stable.
#[derive(Copy, Clone, Debug, PartialEq, Eq, Structural)]
pub enum Unbounded {
    Unbounded,
}

} // verus!
