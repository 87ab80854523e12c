//! The work measure convergence and cost studies are plotted against.

use vstd::prelude::*;
use crate::problem::Stats;

verus! {

/// The work a run cost: its right hand side evaluations.
pub fn work(stats: &Stats) -> (w: u64)
    ensures
        w == stats.rhs_evals,
{
    stats.rhs_evals
}

} // verus!
