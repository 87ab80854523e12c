//! Rosenbrock tableaux: how a method file must be shaped.
//!
//! A Rosenbrock (ROW) method is given by a strictly lower triangular `alpha`,
//! a lower triangular `gamma` with a nonzero diagonal, the weights `b` and
//! optionally embedded weights. Rows may stop at their last nonzero entry.
//! Whether a coefficient counts as zero is decided where the coefficients are
//! held; the check here takes that answer for each entry that is written out.

use vstd::prelude::*;
use crate::method::rk::{count_error, count_message, entry_nonzero};
use crate::text::{decimal_string, decimal_text};

verus! {

/// Why a Rosenbrock tableau was rejected.
#[derive(Debug)]
pub struct RosenbrockError(pub String);

/// The rows of a block of flags, each by its view.
pub open spec fn flags(rows: Seq<Vec<bool>>) -> Seq<Seq<bool>> {
    rows.map_values(|r: Vec<bool>| r@)
}

/// Whether column `j` of row `i` lies where a triangular block must be zero:
/// on or above the diagonal for a strict block, above it otherwise.
pub open spec fn forbidden(i: int, j: int, strict: bool) -> bool {
    if strict {
        j >= i
    } else {
        j > i
    }
}

/// The first column at or after `j` of row `i` that is nonzero where the
/// block must be zero.
pub open spec fn entry_flaw(row: Seq<bool>, i: int, strict: bool, j: int) -> Option<int>
    decreases row.len() - j,
{
    if j < 0 || j >= row.len() {
        None
    } else if forbidden(i, j, strict) && row[j] {
        Some(j)
    } else {
        entry_flaw(row, i, strict, j + 1)
    }
}

/// The first flaw of a triangular block from row `i` on, row by row: a row
/// longer than `s` (`(i, None)`) or a nonzero entry where the block must be
/// zero (`(i, Some(j))`).
pub open spec fn block_flaw(rows: Seq<Seq<bool>>, s: int, strict: bool, i: int) -> Option<
    (int, Option<int>),
>
    decreases rows.len() - i,
{
    if i < 0 || i >= rows.len() {
        None
    } else if rows[i].len() > s {
        Some((i, None))
    } else {
        match entry_flaw(rows[i], i, strict, 0) {
            Some(j) => Some((i, Some(j))),
            None => block_flaw(rows, s, strict, i + 1),
        }
    }
}

/// What is wrong with the triangular block called `name`, with `s` stages.
pub open spec fn block_error(name: Seq<char>, rows: Seq<Seq<bool>>, s: nat, strict: bool) -> Option<
    Seq<char>,
> {
    if rows.len() != s {
        Some(
            name + " has "@ + decimal_text(rows.len()) + " rows but b has "@ + decimal_text(s)
                + " entries"@,
        )
    } else {
        match block_flaw(rows, s as int, strict, 0) {
            Some((i, None)) => Some(
                "row "@ + decimal_text(i as nat) + " of "@ + name + " has more than "@
                    + decimal_text(s) + " entries"@,
            ),
            Some((i, Some(j))) => Some(
                name + "["@ + decimal_text(i as nat) + "]["@ + decimal_text(j as nat)
                    + "] is nonzero, which the structure does not allow"@,
            ),
            None => None,
        }
    }
}

/// The first row at or after `i` whose diagonal entry is zero, or the
/// number of rows when there is none.
pub open spec fn zero_diagonal(rows: Seq<Seq<bool>>, i: int) -> int
    decreases rows.len() - i,
{
    if i < 0 || i >= rows.len() {
        rows.len() as int
    } else if !entry_nonzero(rows, i, i) {
        i
    } else {
        zero_diagonal(rows, i + 1)
    }
}

/// What is wrong with the shape of a Rosenbrock tableau with `b` weights;
/// `None` when nothing is. The checks run in this order and the first that
/// fails is reported.
pub open spec fn rosenbrock_shape_error(
    alpha: Seq<Seq<bool>>,
    gamma: Seq<Seq<bool>>,
    b: usize,
    b_embedded: Option<usize>,
) -> Option<Seq<char>> {
    let s = b as nat;
    let k = zero_diagonal(gamma, 0);
    if s == 0 {
        Some("tableau has no stages"@)
    } else if block_error("alpha"@, alpha, s, true) is Some {
        block_error("alpha"@, alpha, s, true)
    } else if block_error("gamma"@, gamma, s, false) is Some {
        block_error("gamma"@, gamma, s, false)
    } else if k < s {
        Some(
            "gamma["@ + decimal_text(k as nat) + "]["@ + decimal_text(k as nat)
                + "] is zero, so stage "@ + decimal_text(k as nat)
                + " has no linear system to solve"@,
        )
    } else if b_embedded is Some && b_embedded->0 != s {
        Some(count_message("b_embedded"@, b_embedded->0 as nat, s))
    } else {
        None
    }
}

/// Check the triangular block called `name` with `s` stages: `rows[i][j]`
/// tells whether the entry written out in row `i`, column `j` is nonzero.
fn check_block(name: &str, rows: &Vec<Vec<bool>>, s: usize, strict: bool) -> (r: Option<String>)
    ensures
        r is None <==> block_error(name@, flags(rows@), s as nat, strict) is None,
        r matches Some(m) ==> block_error(name@, flags(rows@), s as nat, strict) == Some(m@),
{
    let ghost m = flags(rows@);
    if rows.len() != s {
        let mut e = String::from_str(name);
        e.append(" has ");
        e.append(decimal_string(rows.len() as u64).as_str());
        e.append(" rows but b has ");
        e.append(decimal_string(s as u64).as_str());
        e.append(" entries");
        return Some(e);
    }
    let mut i: usize = 0;
    while i < rows.len()
        invariant
            i <= rows@.len(),
            rows@.len() == s,
            m == flags(rows@),
            block_flaw(m, s as int, strict, 0) == block_flaw(m, s as int, strict, i as int),
        decreases rows@.len() - i,
    {
        let row = &rows[i];
        assert(m[i as int] == row@);
        if row.len() > s {
            assert(block_flaw(m, s as int, strict, i as int) == Some((i as int, None::<int>)));
            let mut e = String::from_str("row ");
            e.append(decimal_string(i as u64).as_str());
            e.append(" of ");
            e.append(name);
            e.append(" has more than ");
            e.append(decimal_string(s as u64).as_str());
            e.append(" entries");
            return Some(e);
        }
        let mut j: usize = 0;
        while j < row.len()
            invariant
                i < rows@.len(),
                rows@.len() == s,
                m == flags(rows@),
                row@.len() <= s,
                block_flaw(m, s as int, strict, 0) == block_flaw(m, s as int, strict, i as int),
                j <= row@.len(),
                m[i as int] == row@,
                entry_flaw(row@, i as int, strict, 0) == entry_flaw(row@, i as int, strict, j as int),
            decreases row@.len() - j,
        {
            let above = if strict {
                j >= i
            } else {
                j > i
            };
            if above && row[j] {
                assert(entry_flaw(row@, i as int, strict, j as int) == Some(j as int));
                let mut e = String::from_str(name);
                e.append("[");
                e.append(decimal_string(i as u64).as_str());
                e.append("][");
                e.append(decimal_string(j as u64).as_str());
                e.append("] is nonzero, which the structure does not allow");
                assert(block_flaw(m, s as int, strict, i as int) == Some((i as int, Some(j as int))));
                return Some(e);
            }
            j = j + 1;
        }
        assert(entry_flaw(row@, i as int, strict, j as int) is None);
        i = i + 1;
    }
    None
}

/// Check the shape of a Rosenbrock tableau: `alpha[i][j]` and `gamma[i][j]`
/// tell whether each entry written out is nonzero, `b` is the number of
/// weights, which is the number of stages, and `b_embedded` the number of
/// embedded weights where the file has them.
pub fn check_rosenbrock_shape(
    alpha: &Vec<Vec<bool>>,
    gamma: &Vec<Vec<bool>>,
    b: usize,
    b_embedded: Option<usize>,
) -> (r: Result<(), RosenbrockError>)
    ensures
        r is Ok <==> rosenbrock_shape_error(flags(alpha@), flags(gamma@), b, b_embedded) is None,
        r matches Err(e) ==> rosenbrock_shape_error(flags(alpha@), flags(gamma@), b, b_embedded)
            == Some(e.0@),
{
    let s = b;
    if s == 0 {
        return Err(RosenbrockError(String::from_str("tableau has no stages")));
    }
    if let Some(e) = check_block("alpha", alpha, s, true) {
        return Err(RosenbrockError(e));
    }
    if let Some(e) = check_block("gamma", gamma, s, false) {
        return Err(RosenbrockError(e));
    }
    let ghost m = flags(gamma@);
    let mut i: usize = 0;
    while i < s
        invariant
            s == b,
            s > 0,
            i <= s,
            gamma@.len() == s,
            block_error("alpha"@, flags(alpha@), s as nat, true) is None,
            block_error("gamma"@, flags(gamma@), s as nat, false) is None,
            m == flags(gamma@),
            zero_diagonal(m, 0) == zero_diagonal(m, i as int),
        decreases s - i,
    {
        let row = &gamma[i];
        assert(m[i as int] == row@);
        if !(i < row.len() && row[i]) {
            assert(zero_diagonal(m, i as int) == i);
            let mut e = String::from_str("gamma[");
            e.append(decimal_string(i as u64).as_str());
            e.append("][");
            e.append(decimal_string(i as u64).as_str());
            e.append("] is zero, so stage ");
            e.append(decimal_string(i as u64).as_str());
            e.append(" has no linear system to solve");
            return Err(RosenbrockError(e));
        }
        i = i + 1;
    }
    if let Some(n) = b_embedded {
        if n != s {
            return Err(RosenbrockError(count_error("b_embedded", n, s)));
        }
    }
    Ok(())
}

} // verus!
