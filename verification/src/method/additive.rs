//! Additive (IMEX) pairs: two tableaux that share their stages, one for the
//! non stiff half of a problem and one for the stiff half.

use vstd::prelude::*;
use crate::method::rk::{Structure, TableauError};
use crate::text::{decimal_string, decimal_text};

verus! {

/// What is wrong with a pair whose halves have the given numbers of stages;
/// `None` when they share them.
pub open spec fn stage_mismatch(explicit: nat, implicit: nat) -> Option<Seq<char>> {
    if explicit != implicit {
        Some(
            "the halves have "@ + decimal_text(explicit) + " and "@ + decimal_text(implicit)
                + " stages, and an additive pair shares its stages"@,
        )
    } else {
        None
    }
}

/// Check that the two halves of a pair have the same number of stages. This
/// comes first; the halves must then agree on their abscissae, and after that
/// the explicit half must be explicit (`check_explicit_half`).
pub fn check_pair_stages(explicit: usize, implicit: usize) -> (r: Result<(), TableauError>)
    ensures
        r is Ok <==> stage_mismatch(explicit as nat, implicit as nat) is None,
        r matches Err(e) ==> stage_mismatch(explicit as nat, implicit as nat) == Some(e.0@),
{
    if explicit != implicit {
        let mut m = String::from_str("the halves have ");
        m.append(decimal_string(explicit as u64).as_str());
        m.append(" and ");
        m.append(decimal_string(implicit as u64).as_str());
        m.append(" stages, and an additive pair shares its stages");
        return Err(TableauError(m));
    }
    Ok(())
}

/// Check that the half applied to the non stiff part, with the given
/// structure, is explicit.
pub fn check_explicit_half(structure: Structure) -> (r: Result<(), TableauError>)
    ensures
        r is Ok <==> structure == Structure::Explicit,
        r matches Err(e) ==> e.0@ == "the explicit half is not explicit"@,
{
    match structure {
        Structure::Explicit => Ok(()),
        _ => Err(TableauError(String::from_str("the explicit half is not explicit"))),
    }
}

} // verus!
