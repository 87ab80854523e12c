# solvers_core

The exact core of an ODE method library, verified with Verus: rational
arithmetic, the coefficient expression language of method files, the rooted
and coloured trees that index the order conditions, the order conditions of
Runge-Kutta, additive and Rosenbrock methods checked in exact arithmetic, the
checks a method file has to pass, the method library itself, and the names,
tags and notes that describe a method.

Layout:

- `src/num`: divisibility, `Rational` with overflow checked operations, and
  the expression parser with its exact evaluation.
- `src/text.rs`: Unicode white space, ASCII case folding, name keys and
  decimal notation.
- `src/analysis`: rooted trees (`order`, `shape`), coloured trees
  (`coloured`, `additive`), the order conditions (`conditions`, `pairs`,
  `rosenbrock`), the notes on a file's claims (`agreement`) and the tags
  (`tags`).
- `src/method`: the shape checks of tableau files, the library of methods by
  id and alias, references and their links.
- `src/control.rs`, `src/nonlinear.rs`: controller presets and nonlinear
  solver kinds by name.
- `app/`: the command line program. It reads method files as JSON and holds
  everything that computes in floating point: coefficients that leave the
  rationals and the numerical order check of such tableaux, the problem
  catalogue, the error controller, the nonlinear iterations, the
  Runge-Kutta, multistep and Rosenbrock steppers with the integration
  driver, the linear stability analysis, and the convergence and work
  precision studies.
- `tests/`: tests of the library on concrete values.
