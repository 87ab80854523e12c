//! Linear multistep families: how a solved coefficient system is scaled,
//! and why a family could not be read.

use vstd::prelude::*;
use crate::text::{decimal_string, decimal_text};

verus! {

/// Which coefficient is pinned to break the scaling degeneracy of a
/// homogeneous coefficient system.
#[derive(Copy, Clone, Debug, PartialEq, Eq, Structural)]
pub enum Normalization {
    /// Rescale the solved coefficients so that `alpha_0 = 1`.
    Alpha0,
    /// Leave the coefficients as solved.
    AsSolved,
}

impl Default for Normalization {
    fn default() -> (n: Normalization)
        ensures
            n == Normalization::Alpha0,
    {
        Normalization::Alpha0
    }
}

/// Why a multistep family was rejected.
#[derive(Debug)]
pub struct LmmError(pub String);

/// What is wrong with the shape of a `steps`-step family whose `alpha` and
/// `beta` have the given numbers of entries; `None` when nothing is.
pub open spec fn lmm_shape_error(steps: nat, alpha: nat, beta: nat) -> Option<Seq<char>> {
    if steps == 0 {
        Some("a multistep method needs at least one step"@)
    } else if alpha != steps + 1 || beta != steps + 1 {
        Some(
            "alpha and beta must have "@ + decimal_text(steps + 1) + " entries for a "@
                + decimal_text(steps) + "-step method"@,
        )
    } else {
        None
    }
}

/// Check the shape of a multistep family: a `k`-step formula has `k + 1`
/// coefficients `alpha_j` and as many `beta_j`.
pub fn check_lmm_shape(steps: usize, alpha: usize, beta: usize) -> (r: Result<(), LmmError>)
    requires
        steps < usize::MAX,
    ensures
        r is Ok <==> lmm_shape_error(steps as nat, alpha as nat, beta as nat) is None,
        r matches Err(e) ==> lmm_shape_error(steps as nat, alpha as nat, beta as nat) == Some(
            e.0@,
        ),
{
    if steps == 0 {
        return Err(LmmError(String::from_str("a multistep method needs at least one step")));
    }
    if alpha != steps + 1 || beta != steps + 1 {
        let mut m = String::from_str("alpha and beta must have ");
        m.append(decimal_string((steps + 1) as u64).as_str());
        m.append(" entries for a ");
        m.append(decimal_string(steps as u64).as_str());
        m.append("-step method");
        return Err(LmmError(m));
    }
    Ok(())
}

} // verus!
