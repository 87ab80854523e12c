//! The choice of iteration for the implicit update equations.
//!
//! Every implicit method poses its stage equations as a root problem and
//! hands it to one of a small set of iterations; which one is chosen by name.

use vstd::prelude::*;
use crate::text::{lemma_plain_key, lemma_plain_not_separator, lemma_snake_key, lookup_key, lookup_key_of, plain, spells};

verus! {

/// Which iteration to run.
#[derive(Copy, Clone, Debug, PartialEq, Eq, Structural)]
pub enum SolverKind {
    /// `z <- z - G(z)`. No linear model needed, contracts only for small steps.
    FixedPoint,
    /// Anderson accelerated fixed point iteration.
    Anderson,
    /// Newton with the iteration matrix rebuilt every iteration.
    Newton,
    /// Newton with a frozen iteration matrix, refactored when convergence
    /// deteriorates. The standard choice for stiff integrators.
    ModifiedNewton,
    /// Modified Newton whose increments are Anderson accelerated.
    NewtonAnderson,
}

/// Why an iteration stopped.
#[derive(Copy, Clone, Debug, PartialEq, Eq, Structural)]
pub enum Status {
    Converged,
    /// Ran out of iterations while still contracting.
    MaxIterations,
    /// The contraction rate exceeded one.
    Diverged,
    /// The linear model could not be factored or applied.
    LinearFailure,
}

/// The characters a solver name may be written with and still be found:
/// hyphens, underscores and spaces are ignored.
pub open spec fn solver_separators() -> Seq<char> {
    seq!['-', '_', ' ']
}

/// The solver a normalised name stands for.
pub open spec fn solver_for_key(k: Seq<char>) -> Option<SolverKind> {
    if k == "fixedpoint"@ || k == "fpi"@ || k == "picard"@ {
        Some(SolverKind::FixedPoint)
    } else if k == "anderson"@ {
        Some(SolverKind::Anderson)
    } else if k == "newton"@ || k == "fullnewton"@ {
        Some(SolverKind::Newton)
    } else if k == "modifiednewton"@ || k == "simplifiednewton"@ || k == "quasinewton"@ {
        Some(SolverKind::ModifiedNewton)
    } else if k == "newtonanderson"@ {
        Some(SolverKind::NewtonAnderson)
    } else {
        None
    }
}

/// The canonical name of a solver.
pub open spec fn solver_name(k: SolverKind) -> Seq<char> {
    match k {
        SolverKind::FixedPoint => "fixed_point"@,
        SolverKind::Anderson => "anderson"@,
        SolverKind::Newton => "newton"@,
        SolverKind::ModifiedNewton => "modified_newton"@,
        SolverKind::NewtonAnderson => "newton_anderson"@,
    }
}

/// Every solver.
pub open spec fn all_solvers() -> Seq<SolverKind> {
    seq![
        SolverKind::FixedPoint,
        SolverKind::Anderson,
        SolverKind::Newton,
        SolverKind::ModifiedNewton,
        SolverKind::NewtonAnderson,
    ]
}

impl SolverKind {
    /// The solver a name stands for: surrounding white space, case and the
    /// separators `-`, `_` and ` ` do not matter.
    pub fn from_name(name: &str) -> (k: Option<SolverKind>)
        ensures
            k == solver_for_key(lookup_key(name@, solver_separators())),
    {
        proof {
            reveal_strlit("-_ ");
        }
        let key = lookup_key_of(name, "-_ ");
        assert("-_ "@ =~= solver_separators());
        if spells(&key, "fixedpoint") || spells(&key, "fpi") || spells(&key, "picard") {
            Some(SolverKind::FixedPoint)
        } else if spells(&key, "anderson") {
            Some(SolverKind::Anderson)
        } else if spells(&key, "newton") || spells(&key, "fullnewton") {
            Some(SolverKind::Newton)
        } else if spells(&key, "modifiednewton") || spells(&key, "simplifiednewton") || spells(
            &key,
            "quasinewton",
        ) {
            Some(SolverKind::ModifiedNewton)
        } else if spells(&key, "newtonanderson") {
            Some(SolverKind::NewtonAnderson)
        } else {
            None
        }
    }

    /// The canonical name.
    pub fn name(self) -> (n: &'static str)
        ensures
            n@ == solver_name(self),
    {
        match self {
            SolverKind::FixedPoint => "fixed_point",
            SolverKind::Anderson => "anderson",
            SolverKind::Newton => "newton",
            SolverKind::ModifiedNewton => "modified_newton",
            SolverKind::NewtonAnderson => "newton_anderson",
        }
    }

    /// Every solver.
    pub fn all() -> (kinds: &'static [SolverKind])
        ensures
            kinds@ == all_solvers(),
    {
        let kinds: &'static [SolverKind] = &[
            SolverKind::FixedPoint,
            SolverKind::Anderson,
            SolverKind::Newton,
            SolverKind::ModifiedNewton,
            SolverKind::NewtonAnderson,
        ];
        assert(kinds@ =~= all_solvers());
        kinds
    }

    /// Whether the iteration needs a linear model of the problem.
    pub fn needs_jacobian(self) -> (b: bool)
        ensures
            b == (self == SolverKind::Newton || self == SolverKind::ModifiedNewton || self
                == SolverKind::NewtonAnderson),
    {
        match self {
            SolverKind::Newton | SolverKind::ModifiedNewton | SolverKind::NewtonAnderson => true,
            _ => false,
        }
    }
}

/// Every solver is found again by its own name.
pub proof fn law_solver_name_round_trip(k: SolverKind)
    ensures
        solver_for_key(lookup_key(solver_name(k), solver_separators())) == Some(k),
{
    reveal_strlit("fixed_point");
    reveal_strlit("fixedpoint");
    reveal_strlit("fpi");
    reveal_strlit("picard");
    reveal_strlit("anderson");
    reveal_strlit("newton");
    reveal_strlit("fullnewton");
    reveal_strlit("modified_newton");
    reveal_strlit("modifiednewton");
    reveal_strlit("simplifiednewton");
    reveal_strlit("quasinewton");
    reveal_strlit("newton_anderson");
    reveal_strlit("newtonanderson");
    let n = solver_name(k);
    assert(solver_separators()[1] == '_');
    match k {
        SolverKind::FixedPoint => {
            let a = seq!['f', 'i', 'x', 'e', 'd'];
            let b = seq!['p', 'o', 'i', 'n', 't'];
            assert(n =~= a + seq!['_'] + b);
            lemma_plain_not_separator(a, solver_separators());
            lemma_plain_not_separator(b, solver_separators());
            lemma_snake_key(a, b, solver_separators());
            assert(lookup_key(n, solver_separators()) =~= "fixedpoint"@);
        },
        SolverKind::ModifiedNewton => {
            let a = seq!['m', 'o', 'd', 'i', 'f', 'i', 'e', 'd'];
            let b = seq!['n', 'e', 'w', 't', 'o', 'n'];
            assert(n =~= a + seq!['_'] + b);
            lemma_plain_not_separator(a, solver_separators());
            lemma_plain_not_separator(b, solver_separators());
            lemma_snake_key(a, b, solver_separators());
            let key = lookup_key(n, solver_separators());
            assert(key =~= "modifiednewton"@);
            assert(key.len() != "newton"@.len());
        },
        SolverKind::NewtonAnderson => {
            let a = seq!['n', 'e', 'w', 't', 'o', 'n'];
            let b = seq!['a', 'n', 'd', 'e', 'r', 's', 'o', 'n'];
            assert(n =~= a + seq!['_'] + b);
            lemma_plain_not_separator(a, solver_separators());
            lemma_plain_not_separator(b, solver_separators());
            lemma_snake_key(a, b, solver_separators());
            let key = lookup_key(n, solver_separators());
            assert(key =~= "newtonanderson"@);
            assert(key[0] != "modifiednewton"@[0]);
        },
        _ => {
            lemma_plain_not_separator(n, solver_separators());
            lemma_plain_key(n, solver_separators());
            assert(n[0] != "fixedpoint"@[0] || n.len() != "fixedpoint"@.len());
        },
    }
}

/// The keys each solver answers to: its name and every alias, as they read
/// once looked up.
pub open spec fn solver_aliases(k: SolverKind) -> Seq<Seq<char>> {
    match k {
        SolverKind::FixedPoint => seq!["fixedpoint"@, "fpi"@, "picard"@],
        SolverKind::Anderson => seq!["anderson"@],
        SolverKind::Newton => seq!["newton"@, "fullnewton"@],
        SolverKind::ModifiedNewton => seq!["modifiednewton"@, "simplifiednewton"@, "quasinewton"@],
        SolverKind::NewtonAnderson => seq!["newtonanderson"@],
    }
}

/// Every alias finds its solver: written as it is documented, each name a
/// solver answers to is looked up as itself and gives that solver.
pub proof fn law_solver_alias_finds_solver(k: SolverKind, i: int)
    requires
        0 <= i < solver_aliases(k).len(),
    ensures
        lookup_key(solver_aliases(k)[i], solver_separators()) == solver_aliases(k)[i],
        solver_for_key(lookup_key(solver_aliases(k)[i], solver_separators())) == Some(k),
{
    reveal_strlit("fixedpoint");
    reveal_strlit("fpi");
    reveal_strlit("picard");
    reveal_strlit("anderson");
    reveal_strlit("newton");
    reveal_strlit("fullnewton");
    reveal_strlit("modifiednewton");
    reveal_strlit("simplifiednewton");
    reveal_strlit("quasinewton");
    reveal_strlit("newtonanderson");
    let n = solver_aliases(k)[i];
    lemma_plain_not_separator(n, solver_separators());
    lemma_plain_key(n, solver_separators());
    // The names earlier in the lookup that have the same length differ in
    // one character.
    assert("newton"@[0] != "picard"@[0]);
    assert("fullnewton"@[1] != "fixedpoint"@[1]);
    assert("newtonanderson"@[0] != "modifiednewton"@[0]);
}

/// A key finds a solver only if it is one of that solver's names.
pub proof fn law_solver_found_only_by_its_names(key: Seq<char>, k: SolverKind)
    requires
        solver_for_key(key) == Some(k),
    ensures
        solver_aliases(k).contains(key),
{
    let names = solver_aliases(k);
    if names.len() > 0 && key == names[0] {
    } else if names.len() > 1 && key == names[1] {
    } else {
        assert(names[names.len() - 1] == key);
    }
}

} // verus!
