//! Runge-Kutta tableaux: how a method file must be shaped, and how the stages
//! couple.
//!
//! A method file only has to state `A`, `b` and optionally `c`, the embedded
//! weights and a dense output; rows of `A` may stop at their last nonzero
//! entry. The structure is derived from where the nonzero coefficients sit
//! rather than declared. Whether a coefficient counts as zero is decided where
//! the coefficients are held, so the functions here take that answer for each
//! entry that is written out.

use vstd::prelude::*;
use crate::text::{decimal_string, decimal_text};

verus! {

/// How the stages couple, which decides how a step is computed.
#[derive(Copy, Clone, Debug, PartialEq, Eq, Structural)]
pub enum Structure {
    /// Strictly lower triangular: stages evaluate in sequence.
    Explicit,
    /// Lower triangular: one implicit solve of size `n` per stage.
    DiagonallyImplicit,
    /// Dense: one coupled implicit solve of size `s * n`.
    FullyImplicit,
}

/// Why a tableau was rejected.
#[derive(Debug)]
pub struct TableauError(pub String);

/// The first index at or after `from` whose length exceeds `s`, or the
/// length of `lens` when there is none.
pub open spec fn first_over(lens: Seq<usize>, s: int, from: int) -> int
    decreases lens.len() - from,
{
    if from < 0 || from >= lens.len() {
        lens.len() as int
    } else if lens[from] > s {
        from
    } else {
        first_over(lens, s, from + 1)
    }
}

/// `"<what> has <n> entries, expected <s>"`.
pub open spec fn count_message(what: Seq<char>, n: nat, s: nat) -> Seq<char> {
    what + " has "@ + decimal_text(n) + " entries, expected "@ + decimal_text(s)
}

/// What is wrong with the shape of a tableau whose rows of `A` have the
/// lengths `a_rows`, whose `b` has `b` entries and whose optional parts have
/// the given sizes (entries of `c` and of the embedded weights, rows of the
/// dense output); `None` when nothing is. The checks run in this order and
/// the first that fails is reported.
pub open spec fn tableau_shape_error(
    a_rows: Seq<usize>,
    b: usize,
    c: Option<usize>,
    b_embedded: Option<usize>,
    dense_rows: Option<usize>,
) -> Option<Seq<char>> {
    let s = b as nat;
    let long = first_over(a_rows, s as int, 0);
    if s == 0 {
        Some("tableau has no stages"@)
    } else if a_rows.len() != s {
        Some(
            "matrix a has "@ + decimal_text(a_rows.len()) + " rows but b has "@ + decimal_text(s)
                + " entries"@,
        )
    } else if long < a_rows.len() {
        Some(
            "row "@ + decimal_text(long as nat) + " of a has more than "@ + decimal_text(s)
                + " entries"@,
        )
    } else if c is Some && c->0 != s {
        Some(count_message("c"@, c->0 as nat, s))
    } else if b_embedded is Some && b_embedded->0 != s {
        Some(count_message("b_embedded"@, b_embedded->0 as nat, s))
    } else if dense_rows is Some && dense_rows->0 != s {
        Some(
            "dense_output has "@ + decimal_text(dense_rows->0 as nat) + " rows, expected "@
                + decimal_text(s),
        )
    } else {
        None
    }
}

/// Whether a given entry of a matrix, written out row by row with rows that
/// may stop early, is nonzero. Entries that are not written out are zero.
pub open spec fn entry_nonzero(nonzero: Seq<Seq<bool>>, i: int, j: int) -> bool {
    0 <= i < nonzero.len() && 0 <= j < nonzero[i].len() && nonzero[i][j]
}

/// Some entry above the diagonal is nonzero.
pub open spec fn nonzero_above(nonzero: Seq<Seq<bool>>) -> bool {
    exists|i: int, j: int| i < j && #[trigger] entry_nonzero(nonzero, i, j)
}

/// Some entry on the diagonal is nonzero.
pub open spec fn nonzero_diagonal(nonzero: Seq<Seq<bool>>) -> bool {
    exists|i: int| #[trigger] entry_nonzero(nonzero, i, i)
}

/// The structure the nonzero pattern of `A` gives.
pub open spec fn structure_spec(nonzero: Seq<Seq<bool>>) -> Structure {
    if nonzero_above(nonzero) {
        Structure::FullyImplicit
    } else if nonzero_diagonal(nonzero) {
        Structure::DiagonallyImplicit
    } else {
        Structure::Explicit
    }
}

/// The first row of `A` is zero.
pub open spec fn first_row_zero(nonzero: Seq<Seq<bool>>) -> bool {
    forall|j: int| !#[trigger] entry_nonzero(nonzero, 0, j)
}

/// How the stages of a tableau couple.
#[derive(Copy, Clone, Debug, PartialEq, Eq, Structural)]
pub struct Coupling {
    pub structure: Structure,
    /// The first stage is explicit in a method that is not: an ESDIRK, or a
    /// collocation method such as Lobatto IIIA.
    pub explicit_first_stage: bool,
}

/// Check the shape of a tableau: `a_rows` holds the length of each row of
/// `A` as written, `b` the number of weights, and the optional parts their
/// sizes where the file has them. The number of weights is the number of
/// stages.
pub fn check_tableau_shape(
    a_rows: &Vec<usize>,
    b: usize,
    c: Option<usize>,
    b_embedded: Option<usize>,
    dense_rows: Option<usize>,
) -> (r: Result<(), TableauError>)
    ensures
        r is Ok <==> tableau_shape_error(
            a_rows@,
            b,
            c,
            b_embedded,
            dense_rows,
        ) is None,
        r matches Err(e) ==> tableau_shape_error(
            a_rows@,
            b,
            c,
            b_embedded,
            dense_rows,
        ) == Some(e.0@),
{
    let s = b;
    if s == 0 {
        return Err(TableauError(String::from_str("tableau has no stages")));
    }
    if a_rows.len() != s {
        let mut m = String::from_str("matrix a has ");
        m.append(decimal_string(a_rows.len() as u64).as_str());
        m.append(" rows but b has ");
        m.append(decimal_string(s as u64).as_str());
        m.append(" entries");
        return Err(TableauError(m));
    }
    let mut i: usize = 0;
    while i < a_rows.len()
        invariant
            s == b,
            s > 0,
            a_rows@.len() == s,
            i <= a_rows@.len(),
            first_over(a_rows@, s as int, 0) == first_over(a_rows@, s as int, i as int),
        decreases a_rows@.len() - i,
    {
        if a_rows[i] > s {
            assert(first_over(a_rows@, s as int, i as int) == i);
            let mut m = String::from_str("row ");
            m.append(decimal_string(i as u64).as_str());
            m.append(" of a has more than ");
            m.append(decimal_string(s as u64).as_str());
            m.append(" entries");
            return Err(TableauError(m));
        }
        i = i + 1;
    }
    if let Some(n) = c {
        if n != s {
            return Err(TableauError(count_error("c", n, s)));
        }
    }
    if let Some(n) = b_embedded {
        if n != s {
            return Err(TableauError(count_error("b_embedded", n, s)));
        }
    }
    if let Some(n) = dense_rows {
        if n != s {
            let mut m = String::from_str("dense_output has ");
            m.append(decimal_string(n as u64).as_str());
            m.append(" rows, expected ");
            m.append(decimal_string(s as u64).as_str());
            return Err(TableauError(m));
        }
    }
    Ok(())
}

/// `"<what> has <n> entries, expected <s>"`.
pub(crate) fn count_error(what: &str, n: usize, s: usize) -> (m: String)
    ensures
        m@ == count_message(what@, n as nat, s as nat),
{
    let mut m = String::from_str(what);
    m.append(" has ");
    m.append(decimal_string(n as u64).as_str());
    m.append(" entries, expected ");
    m.append(decimal_string(s as u64).as_str());
    m
}

/// The coupling of the stages, from whether each written out entry of `A` is
/// nonzero (`nonzero[i][j]` for row `i`, column `j`).
pub fn stage_coupling(nonzero: &Vec<Vec<bool>>) -> (c: Coupling)
    ensures
        c.structure == structure_spec(nonzero@.map_values(|r: Vec<bool>| r@)),
        c.explicit_first_stage == (first_row_zero(nonzero@.map_values(|r: Vec<bool>| r@))
            && c.structure != Structure::Explicit),
{
    let ghost m = nonzero@.map_values(|r: Vec<bool>| r@);
    let mut above = false;
    let mut diagonal = false;
    let mut i: usize = 0;
    while i < nonzero.len()
        invariant
            i <= nonzero@.len(),
            m == nonzero@.map_values(|r: Vec<bool>| r@),
            above == (exists|p: int, q: int| p < i && p < q && #[trigger] entry_nonzero(m, p, q)),
            diagonal == (exists|p: int| p < i && #[trigger] entry_nonzero(m, p, p)),
        decreases nonzero@.len() - i,
    {
        let row = &nonzero[i];
        assert(m[i as int] == row@);
        let mut j: usize = 0;
        while j < row.len()
            invariant
                i < nonzero@.len(),
                j <= row@.len(),
                m == nonzero@.map_values(|r: Vec<bool>| r@),
                m[i as int] == row@,
                above == (exists|p: int, q: int|
                    (p < i || (p == i && q < j)) && p < q && #[trigger] entry_nonzero(m, p, q)),
                diagonal == (exists|p: int|
                    (p < i || (p == i && p < j)) && #[trigger] entry_nonzero(m, p, p)),
            decreases row@.len() - j,
        {
            if row[j] {
                if j > i {
                    above = true;
                    assert(entry_nonzero(m, i as int, j as int));
                } else if j == i {
                    diagonal = true;
                    assert(entry_nonzero(m, i as int, i as int));
                }
            }
            proof {
                if !row@[j as int] || j < i {
                    assert forall|p: int, q: int|
                        (p < i || (p == i && q < j + 1)) && p < q && #[trigger] entry_nonzero(
                            m,
                            p,
                            q,
                        ) implies (p < i || (p == i && q < j)) by {}
                }
                if !row@[j as int] || j != i {
                    assert forall|p: int|
                        (p < i || (p == i && p < j + 1)) && #[trigger] entry_nonzero(
                            m,
                            p,
                            p,
                        ) implies (p < i || (p == i && p < j)) by {}
                }
            }
            j = j + 1;
        }
        proof {
            assert forall|p: int, q: int|
                p < i + 1 && p < q && #[trigger] entry_nonzero(m, p, q) implies (p < i || (p == i
                && q < j)) by {}
            assert forall|p: int| p < i + 1 && #[trigger] entry_nonzero(m, p, p) implies (p < i || (
            p == i && p < j)) by {}
        }
        i = i + 1;
    }
    assert(above == nonzero_above(m));
    assert(diagonal == nonzero_diagonal(m));
    let structure = if above {
        Structure::FullyImplicit
    } else if diagonal {
        Structure::DiagonallyImplicit
    } else {
        Structure::Explicit
    };
    let mut first_zero = true;
    if nonzero.len() > 0 {
        let row = &nonzero[0];
        assert(m[0] == row@);
        let mut j: usize = 0;
        while j < row.len()
            invariant
                nonzero@.len() > 0,
                m == nonzero@.map_values(|r: Vec<bool>| r@),
                j <= row@.len(),
                m[0] == row@,
                first_zero == (forall|q: int| q < j ==> !#[trigger] entry_nonzero(m, 0, q)),
            decreases row@.len() - j,
        {
            if row[j] {
                first_zero = false;
                assert(entry_nonzero(m, 0, j as int));
            }
            j = j + 1;
        }
    }
    Coupling {
        structure,
        explicit_first_stage: first_zero && structure != Structure::Explicit,
    }
}

} // verus!
