//! A very small arithmetic expression language for method parameter files.
//!
//! Published tableaux mix plain fractions with closed form irrationals, so the
//! files accept strings such as `"2012122486997/3467029789466"`,
//! `"(2 - sqrt(2))/4"` or `"1/(2 + sqrt(2))"`. `parse` reads such a string
//! into an expression, reading decimal literals exactly (`0.25` is `1/4`),
//! and `exact_value` evaluates it in the rationals as far as that goes:
//! everything that can stay a rational does, and what cannot (an irrational
//! function, a constant, an overflow) is left to floating point.
//!
//! The grammar, loosest binding first:
//!
//! ```text
//! expr  := term (('+' | '-') term)*
//! term  := unary (('*' | '/') unary)*
//! unary := ('-' | '+') unary | power
//! power := atom ('^' unary)?
//! atom  := '(' expr ')' | number | name | name '(' expr ')'
//! ```

use vstd::prelude::*;
use crate::num::divisibility::{
    abs, canonical, gcd_spec, lemma_canonical_unique, lemma_gcd_commutes, lemma_reduced_parts, same_value,
};
use crate::num::rational::{
    add_fits, difference_pair, fits, lemma_integer_product, lemma_integer_value,
    lemma_power_monotone, lemma_power_positive, mul_fits, pow_fits, power, power_pair,
    product_pair, quotient_pair, reciprocal, sum_pair, Rational,
};
use crate::text::{ascii_lower, chars_of, is_white_space, lower, spells, white_space};

verus! {

/// Where and why an expression could not be read.
#[derive(Debug, Clone)]
pub struct ExprError {
    pub message: String,
    pub position: usize,
}

/// An ASCII digit.
pub open spec fn is_digit(c: char) -> bool {
    '0' <= c <= '9'
}

/// The value of a string of decimal digits.
pub open spec fn decimal(d: Seq<char>) -> nat
    decreases d.len(),
{
    if d.len() == 0 {
        0
    } else {
        decimal(d.drop_last()) * 10 + ((d.last() as int) - ('0' as int)) as nat
    }
}

/// The first position at or after `p` that does not hold white space.
pub open spec fn skip_spaces(cs: Seq<char>, p: int) -> int
    decreases cs.len() - p,
{
    if 0 <= p < cs.len() && is_white_space(cs[p]) {
        skip_spaces(cs, p + 1)
    } else {
        p
    }
}

/// The mantissa of a number literal from `p` on: its digits, how many of them
/// follow the decimal point, and where it ends. Underscores are skipped and a
/// second point ends the mantissa.
pub open spec fn mantissa(cs: Seq<char>, p: int, seen_dot: bool) -> (Seq<char>, nat, int)
    decreases cs.len() - p,
{
    if 0 <= p < cs.len() {
        let c = cs[p];
        if is_digit(c) {
            let (d, s, e) = mantissa(cs, p + 1, seen_dot);
            (seq![c] + d, if seen_dot { s + 1 } else { s }, e)
        } else if c == '.' && !seen_dot {
            mantissa(cs, p + 1, true)
        } else if c == '_' {
            mantissa(cs, p + 1, seen_dot)
        } else {
            (Seq::empty(), 0, p)
        }
    } else {
        (Seq::empty(), 0, p)
    }
}

/// The end of the run of digits starting at `p`.
pub open spec fn digits_end(cs: Seq<char>, p: int) -> int
    decreases cs.len() - p,
{
    if 0 <= p < cs.len() && is_digit(cs[p]) {
        digits_end(cs, p + 1)
    } else {
        p
    }
}

/// The exponent after a mantissa that ends at `m`, and where it ends. An
/// `e` or `E` counts as an exponent only when digits follow it, with an
/// optional sign between; an exponent too large for an `i32` counts as zero.
pub open spec fn exponent_part(cs: Seq<char>, m: int) -> (int, int) {
    if 0 <= m < cs.len() && (cs[m] == 'e' || cs[m] == 'E') {
        let s0 = m + 1;
        let sign: int = if s0 < cs.len() && cs[s0] == '-' { -1 } else { 1 };
        let s = if s0 < cs.len() && (cs[s0] == '+' || cs[s0] == '-') { s0 + 1 } else { s0 };
        let e = digits_end(cs, s);
        if e == s {
            (0, m)
        } else {
            let v = decimal(cs.subrange(s, e));
            (if v <= i32::MAX { sign * v } else { 0 }, e)
        }
    } else {
        (0, m)
    }
}

/// The one canonical fraction with the value of `p`.
pub open spec fn canonical_form(p: (int, int)) -> (int, int) {
    choose|q: (int, int)| canonical(q) && same_value(q, p)
}

/// The exact value `mant * 10^net` of a literal, when its mantissa, the power
/// of ten and, for a positive exponent, their product fit in an `i128`.
pub open spec fn literal_value(mant: nat, net: int) -> Option<(int, int)> {
    let k = abs(net);
    if mant <= i128::MAX && power(10, k) <= i128::MAX && (net >= 0 ==> mant * power(10, k)
        <= i128::MAX) {
        Some(
            if net >= 0 {
                (mant * power(10, k), 1)
            } else {
                canonical_form((mant as int, power(10, k)))
            },
        )
    } else {
        None
    }
}

/// A function a name may call.
#[derive(Copy, Clone, Debug, PartialEq, Eq, Structural)]
pub enum Function {
    Sqrt,
    Cbrt,
    Exp,
    /// `ln` and `log`, the natural logarithm.
    Ln,
    Log10,
    Sin,
    Cos,
    Tan,
    Atan,
    Abs,
}

/// An expression as it was read.
#[derive(Debug)]
pub enum Expr {
    /// A literal read exactly.
    Exact(Rational),
    /// A literal the rationals cannot hold, as written, for floating point.
    Inexact(Vec<char>),
    Pi,
    E,
    Neg(Box<Expr>),
    Add(Box<Expr>, Box<Expr>),
    Sub(Box<Expr>, Box<Expr>),
    Mul(Box<Expr>, Box<Expr>),
    Div(Box<Expr>, Box<Expr>),
    Pow(Box<Expr>, Box<Expr>),
    Call(Function, Box<Expr>),
}

/// The mathematical expression an `Expr` stands for.
pub enum Formula {
    Exact((int, int)),
    Inexact(Seq<char>),
    Pi,
    E,
    Neg(Box<Formula>),
    Add(Box<Formula>, Box<Formula>),
    Sub(Box<Formula>, Box<Formula>),
    Mul(Box<Formula>, Box<Formula>),
    Div(Box<Formula>, Box<Formula>),
    Pow(Box<Formula>, Box<Formula>),
    Call(Function, Box<Formula>),
}

/// The formula an expression stands for.
pub open spec fn formula_of(e: Expr) -> Formula
    decreases e,
{
    match e {
        Expr::Exact(r) => Formula::Exact(r@),
        Expr::Inexact(t) => Formula::Inexact(t@),
        Expr::Pi => Formula::Pi,
        Expr::E => Formula::E,
        Expr::Neg(a) => Formula::Neg(Box::new(formula_of(*a))),
        Expr::Add(a, b) => Formula::Add(Box::new(formula_of(*a)), Box::new(formula_of(*b))),
        Expr::Sub(a, b) => Formula::Sub(Box::new(formula_of(*a)), Box::new(formula_of(*b))),
        Expr::Mul(a, b) => Formula::Mul(Box::new(formula_of(*a)), Box::new(formula_of(*b))),
        Expr::Div(a, b) => Formula::Div(Box::new(formula_of(*a)), Box::new(formula_of(*b))),
        Expr::Pow(a, b) => Formula::Pow(Box::new(formula_of(*a)), Box::new(formula_of(*b))),
        Expr::Call(f, a) => Formula::Call(f, Box::new(formula_of(*a))),
    }
}

/// Every exact literal of an expression is a canonical rational.
pub open spec fn well_formed(e: Expr) -> bool
    decreases e,
{
    match e {
        Expr::Exact(r) => r.wf(),
        Expr::Neg(a) => well_formed(*a),
        Expr::Call(_, a) => well_formed(*a),
        Expr::Add(a, b) => well_formed(*a) && well_formed(*b),
        Expr::Sub(a, b) => well_formed(*a) && well_formed(*b),
        Expr::Mul(a, b) => well_formed(*a) && well_formed(*b),
        Expr::Div(a, b) => well_formed(*a) && well_formed(*b),
        Expr::Pow(a, b) => well_formed(*a) && well_formed(*b),
        _ => true,
    }
}

/// The outcome of reading part of an expression: what was read and where
/// reading stopped, or why it failed and where.
pub enum Outcome {
    Parsed(Formula, int),
    Failed(Seq<char>, int),
}

/// Reading a number literal at `p`.
pub open spec fn read_number(cs: Seq<char>, p: int) -> Outcome {
    let (digits, scale, m) = mantissa(cs, p, false);
    if digits.len() == 0 {
        Outcome::Failed("malformed number"@, p)
    } else {
        let (x, end) = exponent_part(cs, m);
        match literal_value(decimal(digits), x - scale) {
            Some(v) => Outcome::Parsed(Formula::Exact(v), end),
            None => {
                let text = cs.subrange(p, end);
                if text.contains('_') {
                    Outcome::Failed("malformed number"@, end)
                } else {
                    Outcome::Parsed(Formula::Inexact(text), end)
                }
            },
        }
    }
}

/// `char::is_alphabetic`: whether a character has the Unicode `Alphabetic`
/// property.
pub uninterp spec fn alphabetic(c: char) -> bool;

/// `char::is_numeric`: whether a character is in one of the Unicode general
/// categories for numbers.
pub uninterp spec fn numeric(c: char) -> bool;

/// `char::is_alphabetic`, which decides where a name may start. What it
/// returns is the Unicode `Alphabetic` property of the character; that
/// table is not restated here, only named.
#[verifier::external_body]
fn is_alphabetic(c: char) -> (r: bool)
    ensures
        r == alphabetic(c),
{
    c.is_alphabetic()
}

/// `char::is_numeric`, which with `is_alphabetic` decides how far a name
/// runs. What it returns is whether the character is in the Unicode number
/// categories; that table is not restated here, only named.
#[verifier::external_body]
fn is_numeric(c: char) -> (r: bool)
    ensures
        r == numeric(c),
{
    c.is_numeric()
}

/// `char::is_alphanumeric`, which the standard library defines as either of
/// the two.
fn is_alphanumeric(c: char) -> (r: bool)
    ensures
        r == (alphabetic(c) || numeric(c)),
{
    is_alphabetic(c) || is_numeric(c)
}

/// Whether a character may continue a name.
pub open spec fn name_char(c: char) -> bool {
    alphabetic(c) || numeric(c) || c == '_'
}

/// The end of the name that starts at `p`.
pub open spec fn name_end(cs: Seq<char>, p: int) -> int
    decreases cs.len() - p,
{
    if 0 <= p < cs.len() && name_char(cs[p]) {
        name_end(cs, p + 1)
    } else {
        p
    }
}

/// The function a lower case name calls.
pub open spec fn function_named(name: Seq<char>) -> Option<Function> {
    if name == "sqrt"@ {
        Some(Function::Sqrt)
    } else if name == "cbrt"@ {
        Some(Function::Cbrt)
    } else if name == "exp"@ {
        Some(Function::Exp)
    } else if name == "ln"@ || name == "log"@ {
        Some(Function::Ln)
    } else if name == "log10"@ {
        Some(Function::Log10)
    } else if name == "sin"@ {
        Some(Function::Sin)
    } else if name == "cos"@ {
        Some(Function::Cos)
    } else if name == "tan"@ {
        Some(Function::Tan)
    } else if name == "atan"@ {
        Some(Function::Atan)
    } else if name == "abs"@ {
        Some(Function::Abs)
    } else {
        None
    }
}

/// Reading `expr := term (('+' | '-') term)*` at `p`.
pub open spec fn read_expr(cs: Seq<char>, p: int) -> Outcome
    decreases cs.len() - p, 7int,
{
    match read_term(cs, p) {
        Outcome::Parsed(lhs, q) => if p <= q <= cs.len() {
            expr_rest(cs, lhs, q)
        } else {
            Outcome::Failed(Seq::empty(), q)
        },
        Outcome::Failed(m, q) => Outcome::Failed(m, q),
    }
}

/// The `(('+' | '-') term)*` after `lhs`, from `p` on.
pub open spec fn expr_rest(cs: Seq<char>, lhs: Formula, p: int) -> Outcome
    decreases cs.len() - p, 6int,
{
    let q = skip_spaces(cs, p);
    if 0 <= p <= q < cs.len() && (cs[q] == '+' || cs[q] == '-') {
        match read_term(cs, q + 1) {
            Outcome::Parsed(rhs, r) => {
                let e = if cs[q] == '+' {
                    Formula::Add(Box::new(lhs), Box::new(rhs))
                } else {
                    Formula::Sub(Box::new(lhs), Box::new(rhs))
                };
                if q + 1 <= r <= cs.len() {
                    expr_rest(cs, e, r)
                } else {
                    Outcome::Failed(Seq::empty(), r)
                }
            },
            Outcome::Failed(m, r) => Outcome::Failed(m, r),
        }
    } else {
        Outcome::Parsed(lhs, q)
    }
}

/// Reading `term := unary (('*' | '/') unary)*` at `p`.
pub open spec fn read_term(cs: Seq<char>, p: int) -> Outcome
    decreases cs.len() - p, 5int,
{
    match read_unary(cs, p) {
        Outcome::Parsed(lhs, q) => if p <= q <= cs.len() {
            term_rest(cs, lhs, q)
        } else {
            Outcome::Failed(Seq::empty(), q)
        },
        Outcome::Failed(m, q) => Outcome::Failed(m, q),
    }
}

/// The `(('*' | '/') unary)*` after `lhs`, from `p` on.
pub open spec fn term_rest(cs: Seq<char>, lhs: Formula, p: int) -> Outcome
    decreases cs.len() - p, 4int,
{
    let q = skip_spaces(cs, p);
    if 0 <= p <= q < cs.len() && (cs[q] == '*' || cs[q] == '/') {
        match read_unary(cs, q + 1) {
            Outcome::Parsed(rhs, r) => {
                let e = if cs[q] == '*' {
                    Formula::Mul(Box::new(lhs), Box::new(rhs))
                } else {
                    Formula::Div(Box::new(lhs), Box::new(rhs))
                };
                if q + 1 <= r <= cs.len() {
                    term_rest(cs, e, r)
                } else {
                    Outcome::Failed(Seq::empty(), r)
                }
            },
            Outcome::Failed(m, r) => Outcome::Failed(m, r),
        }
    } else {
        Outcome::Parsed(lhs, q)
    }
}

/// Reading `unary := ('-' | '+') unary | power` at `p`.
pub open spec fn read_unary(cs: Seq<char>, p: int) -> Outcome
    decreases cs.len() - p, 3int,
{
    let q = skip_spaces(cs, p);
    if !(0 <= p <= q <= cs.len()) {
        Outcome::Failed(Seq::empty(), q)
    } else if q < cs.len() && cs[q] == '-' {
        match read_unary(cs, q + 1) {
            Outcome::Parsed(e, r) => Outcome::Parsed(Formula::Neg(Box::new(e)), r),
            Outcome::Failed(m, r) => Outcome::Failed(m, r),
        }
    } else if q < cs.len() && cs[q] == '+' {
        read_unary(cs, q + 1)
    } else {
        read_power(cs, q)
    }
}

/// Reading `power := atom ('^' unary)?` at `p`.
pub open spec fn read_power(cs: Seq<char>, p: int) -> Outcome
    decreases cs.len() - p, 2int,
{
    match read_atom(cs, p) {
        Outcome::Parsed(base, q) => {
            let r = skip_spaces(cs, q);
            if 0 <= p <= q <= r < cs.len() && cs[r] == '^' {
                match read_unary(cs, r + 1) {
                    Outcome::Parsed(e, s) => Outcome::Parsed(
                        Formula::Pow(Box::new(base), Box::new(e)),
                        s,
                    ),
                    Outcome::Failed(m, s) => Outcome::Failed(m, s),
                }
            } else {
                Outcome::Parsed(base, r)
            }
        },
        Outcome::Failed(m, q) => Outcome::Failed(m, q),
    }
}

/// Reading `atom := '(' expr ')' | number | name | name '(' expr ')'` at `p`.
pub open spec fn read_atom(cs: Seq<char>, p: int) -> Outcome
    decreases cs.len() - p, 1int,
{
    let q = skip_spaces(cs, p);
    if !(0 <= p <= q <= cs.len()) {
        Outcome::Failed(Seq::empty(), q)
    } else if q == cs.len() {
        Outcome::Failed("unexpected end of expression"@, q)
    } else if cs[q] == '(' {
        match read_expr(cs, q + 1) {
            Outcome::Parsed(inner, r) => {
                let s = skip_spaces(cs, r);
                if q + 1 <= r <= s < cs.len() && cs[s] == ')' {
                    Outcome::Parsed(inner, s + 1)
                } else {
                    Outcome::Failed("missing closing parenthesis"@, s)
                }
            },
            Outcome::Failed(m, r) => Outcome::Failed(m, r),
        }
    } else if is_digit(cs[q]) || cs[q] == '.' {
        read_number(cs, q)
    } else if alphabetic(cs[q]) || cs[q] == '_' {
        read_name(cs, q)
    } else {
        Outcome::Failed("unexpected character"@, q)
    }
}

/// Reading a name at `p`: the constants `pi` and `e`, or a function applied
/// to a parenthesised argument. Names are read in any case.
pub open spec fn read_name(cs: Seq<char>, p: int) -> Outcome
    decreases cs.len() - p, 0int,
{
    let e = name_end(cs, p);
    let name = cs.subrange(p, e).map_values(|c: char| ascii_lower(c));
    if name == "pi"@ {
        Outcome::Parsed(Formula::Pi, e)
    } else if name == "e"@ {
        Outcome::Parsed(Formula::E, e)
    } else {
        let q = skip_spaces(cs, e);
        if !(0 <= p <= e <= q < cs.len() && cs[q] == '(') {
            Outcome::Failed("unknown constant"@, q)
        } else {
            match read_expr(cs, q + 1) {
                Outcome::Parsed(arg, r) => {
                    let s = skip_spaces(cs, r);
                    if q + 1 <= r <= s < cs.len() && cs[s] == ')' {
                        match function_named(name) {
                            Some(f) => Outcome::Parsed(Formula::Call(f, Box::new(arg)), s + 1),
                            None => Outcome::Failed("unknown function"@, s + 1),
                        }
                    } else {
                        Outcome::Failed("missing closing parenthesis"@, s)
                    }
                },
                Outcome::Failed(m, r) => Outcome::Failed(m, r),
            }
        }
    }
}

/// Reading a whole input: white space, an expression, white space, and
/// nothing after it.
pub open spec fn read_input(cs: Seq<char>) -> Outcome {
    match read_expr(cs, skip_spaces(cs, 0)) {
        Outcome::Parsed(e, q) => {
            let r = skip_spaces(cs, q);
            if r < cs.len() {
                Outcome::Failed("unexpected trailing input"@, r)
            } else {
                Outcome::Parsed(e, r)
            }
        },
        Outcome::Failed(m, q) => Outcome::Failed(m, q),
    }
}

/// Whether a result and the position reading stopped at are the outcome.
pub open spec fn realizes(o: Outcome, r: Result<Expr, ExprError>, pos: int) -> bool {
    match o {
        Outcome::Parsed(f, q) => r is Ok && formula_of(r->Ok_0) == f && well_formed(r->Ok_0) && pos == q,
        Outcome::Failed(m, q) => r is Err && r->Err_0.message@ == m && r->Err_0.position == q,
    }
}

proof fn lemma_power_one(k: nat)
    ensures
        power(1, k) == 1,
    decreases k,
{
    if k > 0 {
        lemma_power_one((k - 1) as nat);
    }
}

/// `10^38` is the largest power of ten an `i128` holds.
proof fn lemma_powers_of_ten(k: nat)
    ensures
        k <= 38 ==> power(10, k) <= i128::MAX,
        k >= 39 ==> power(10, k) > i128::MAX,
        power(10, k) >= 1,
{
    reveal_with_fuel(power, 40);
    assert(power(10, 38) == 100000000000000000000000000000000000000int);
    assert(power(10, 39) == 1000000000000000000000000000000000000000int);
    lemma_power_positive(10, k);
    if k <= 38 {
        lemma_power_monotone(10, k, 38);
    } else {
        lemma_power_monotone(10, 39, k);
    }
}

/// A canonical rational is the canonical form of any pair of its value.
pub proof fn lemma_is_canonical_form(q: Rational, p: (int, int))
    requires
        q.wf(),
        p.1 != 0,
        same_value(q@, p),
    ensures
        q@ == canonical_form(p),
{
    let c = canonical_form(p);
    assert(canonical(q@) && same_value(q@, p));
    assert(canonical(c) && same_value(c, p));
    assert(same_value(q@, c)) by (nonlinear_arith)
        requires
            q@.0 * p.1 == p.0 * q@.1,
            c.0 * p.1 == p.0 * c.1,
            p.1 != 0,
    ;
    lemma_canonical_unique(q@, c);
}

/// The exact value of a literal with mantissa `mant` and decimal exponent
/// `net`.
fn literal(mant: i128, net: i128) -> (r: Option<Rational>)
    requires
        mant >= 0,
    ensures
        r is Some <==> literal_value(mant as nat, net as int) is Some,
        r matches Some(q) ==> q.wf() && q@ == literal_value(mant as nat, net as int)->0,
{
    if net > 38 || net < -38 {
        proof {
            lemma_powers_of_ten(abs(net as int));
        }
        return None;
    }
    let k: u64 = if net >= 0 {
        net as u64
    } else {
        (0 - net) as u64
    };
    proof {
        lemma_powers_of_ten(k as nat);
        assert(abs(net as int) == k);
    }
    if k > 38 {
        return None;
    }
    let ten = Rational::integer(10);
    let base = Rational::integer(mant);
    proof {
        lemma_power_one(k as nat);
    }
    let scale = match ten.checked_powi(k as i32) {
        Some(p) => p,
        None => {
            return None;
        },
    };
    assert(scale@ == (power(10, k as nat), 1int));
    if net >= 0 {
        proof {
            lemma_integer_product(base@, scale@);
        }
        match base.checked_mul(scale) {
            Some(q) => {
                proof {
                    lemma_integer_value(q, mant * power(10, k as nat));
                }
                Some(q)
            },
            None => None,
        }
    } else {
        let ghost t = power(10, k as nat);
        proof {
            let g1 = gcd_spec(abs(mant as int), abs(t));
            crate::num::divisibility::lemma_gcd_positive(abs(mant as int), abs(t));
            assert(gcd_spec(abs(1int), abs(1int)) == 1) by {
                assert(gcd_spec(1, 1) == gcd_spec(1, 0));
            }
            assert(abs(mant as int) == mant && abs(t) == t);
            let m = mant as int;
            assert(0 <= m / (g1 as int) <= m) by (nonlinear_arith)
                requires
                    m >= 0,
                    g1 >= 1,
            ;
            assert(0 <= t / (g1 as int) <= t) by (nonlinear_arith)
                requires
                    t >= 1,
                    g1 >= 1,
            ;
            assert(1int / 1 == 1);
            let a = base@;
            let b = (scale@.1, scale@.0);
            assert(a == (m, 1int));
            assert(b == (1int, t));
            assert(gcd_spec(abs(a.0), abs(b.1)) == g1);
            assert(gcd_spec(abs(b.0), abs(a.1)) == 1);
            assert(fits((a.0 / (g1 as int)) * (b.0 / 1)));
            assert(fits((a.1 / 1) * (b.1 / (g1 as int))));
            assert(mul_fits(base@, (scale@.1, scale@.0)));
        }
        match base.checked_div(scale) {
            Some(q) => {
                proof {
                    assert(quotient_pair(base@, scale@) == (mant as int, t));
                    lemma_is_canonical_form(q, (mant as int, t));
                }
                Some(q)
            },
            None => None,
        }
    }
}

/// A reader over the characters of an expression.
struct Parser {
    chars: Vec<char>,
    pos: usize,
}

/// The prefix of a mantissa read so far and what remains of it agree with
/// the whole mantissa.
proof fn lemma_mantissa_step(cs: Seq<char>, p: int, seen_dot: bool)
    requires
        0 <= p < cs.len(),
    ensures
        is_digit(cs[p]) ==> mantissa(cs, p, seen_dot) == (
            seq![cs[p]] + mantissa(cs, p + 1, seen_dot).0,
            (if seen_dot { mantissa(cs, p + 1, seen_dot).1 + 1 } else { mantissa(cs, p + 1, seen_dot).1 }),
            mantissa(cs, p + 1, seen_dot).2,
        ),
{
}

proof fn lemma_decimal_push(d: Seq<char>, c: char)
    requires
        is_digit(c),
    ensures
        decimal(d.push(c)) == decimal(d) * 10 + ((c as int) - ('0' as int)),
        decimal(d.push(c)) >= decimal(d),
{
    assert(d.push(c).drop_last() =~= d);
}

impl Parser {
    fn error(&self, message: &str) -> (e: ExprError)
        ensures
            e.message@ == message@,
            e.position == self.pos,
    {
        ExprError { message: String::from_str(message), position: self.pos }
    }

    fn peek(&self) -> (c: Option<char>)
        ensures
            c == (if self.pos < self.chars@.len() {
                Some(self.chars@[self.pos as int])
            } else {
                None::<char>
            }),
    {
        if self.pos < self.chars.len() {
            Some(self.chars[self.pos])
        } else {
            None
        }
    }

    fn skip_ws(&mut self)
        requires
            old(self).pos <= old(self).chars@.len(),
        ensures
            final(self).chars@ == old(self).chars@,
            final(self).pos == skip_spaces(old(self).chars@, old(self).pos as int),
            old(self).pos <= final(self).pos <= final(self).chars@.len(),
    {
        let ghost cs = self.chars@;
        let ghost start = self.pos as int;
        assert(self.chars.len() <= usize::MAX);
        while self.pos < self.chars.len() && white_space(self.chars[self.pos])
            invariant
                self.chars@ == cs,
                cs.len() <= usize::MAX,
                start <= self.pos <= cs.len(),
                skip_spaces(cs, start) == skip_spaces(cs, self.pos as int),
            decreases cs.len() - self.pos,
        {
            self.pos = self.pos + 1;
        }
    }

    fn eat(&mut self, c: char) -> (r: bool)
        requires
            old(self).pos <= old(self).chars@.len(),
        ensures
            final(self).chars@ == old(self).chars@,
            ({
                let q = skip_spaces(old(self).chars@, old(self).pos as int);
                &&& old(self).pos <= q <= old(self).chars@.len()
                &&& r == (q < old(self).chars@.len() && old(self).chars@[q] == c)
                &&& final(self).pos == (if r { q + 1 } else { q })
            }),
            old(self).pos <= final(self).pos <= final(self).chars@.len(),
    {
        self.skip_ws();
        let n = self.chars.len();
        match self.peek() {
            Some(d) => {
                if d == c {
                    self.pos = self.pos + 1;
                    true
                } else {
                    false
                }
            },
            None => false,
        }
    }

    /// Decimal literals are read exactly: `0.25` becomes `1/4`, not a float.
    fn number(&mut self) -> (r: Result<Expr, ExprError>)
        requires
            old(self).pos <= old(self).chars@.len(),
        ensures
            final(self).chars@ == old(self).chars@,
            realizes(read_number(old(self).chars@, old(self).pos as int), r, final(self).pos as int),
            r is Ok ==> old(self).pos <= final(self).pos <= final(self).chars@.len(),
    {
        let ghost cs = self.chars@;
        let start = self.pos;
        let mut mant: i128 = 0;
        let mut fits_mantissa = true;
        let mut count: usize = 0;
        let mut scale: usize = 0;
        let mut seen_dot = false;
        let ghost mut acc: Seq<char> = Seq::empty();
        loop
            invariant
                self.chars@ == cs,
                start <= self.pos <= cs.len(),
                mantissa(cs, start as int, false) == (
                    acc + mantissa(cs, self.pos as int, seen_dot).0,
                    (scale + mantissa(cs, self.pos as int, seen_dot).1) as nat,
                    mantissa(cs, self.pos as int, seen_dot).2,
                ),
                count == acc.len(),
                scale <= self.pos,
                count <= self.pos,
                mant >= 0,
                fits_mantissa == (decimal(acc) <= i128::MAX),
                fits_mantissa ==> mant == decimal(acc),
            ensures
                self.chars@ == cs,
                start <= self.pos <= cs.len(),
                mantissa(cs, start as int, false) == (acc, scale as nat, self.pos as int),
                count == acc.len(),
                mant >= 0,
                fits_mantissa == (decimal(acc) <= i128::MAX),
                fits_mantissa ==> mant == decimal(acc),
            decreases cs.len() - self.pos,
        {
            if self.pos >= self.chars.len() {
                proof {
                    assert(acc + Seq::<char>::empty() =~= acc);
                }
                break;
            }
            let c = self.chars[self.pos];
            if '0' <= c && c <= '9' {
                proof {
                    lemma_mantissa_step(cs, self.pos as int, seen_dot);
                    lemma_decimal_push(acc, c);
                    assert(acc.push(c) + mantissa(cs, self.pos + 1, seen_dot).0 =~= acc + (seq![c] + mantissa(cs, self.pos + 1, seen_dot).0));
                }
                let digit = (c as u32) - ('0' as u32);
                if fits_mantissa {
                    match mant.checked_mul(10) {
                        Some(m10) => match m10.checked_add(digit as i128) {
                            Some(m) => {
                                mant = m;
                            },
                            None => {
                                fits_mantissa = false;
                            },
                        },
                        None => {
                            fits_mantissa = false;
                        },
                    }
                }
                proof {
                    acc = acc.push(c);
                }
                count = count + 1;
                if seen_dot {
                    scale = scale + 1;
                }
                self.pos = self.pos + 1;
            } else if c == '.' && !seen_dot {
                seen_dot = true;
                self.pos = self.pos + 1;
            } else if c == '_' {
                self.pos = self.pos + 1;
            } else {
                proof {
                    assert(acc + Seq::<char>::empty() =~= acc);
                }
                break;
            }
        }
        if count == 0 {
            self.pos = start;
            return Err(self.error("malformed number"));
        }
        let m = self.pos;
        let mut exponent: i64 = 0;
        if self.pos < self.chars.len() && (self.chars[self.pos] == 'e' || self.chars[self.pos] == 'E') {
            let save = self.pos;
            self.pos = self.pos + 1;
            let mut sign: i64 = 1;
            if self.pos < self.chars.len() && self.chars[self.pos] == '+' {
                self.pos = self.pos + 1;
            } else if self.pos < self.chars.len() && self.chars[self.pos] == '-' {
                sign = -1;
                self.pos = self.pos + 1;
            }
            let digits_start = self.pos;
            let mut value: i64 = 0;
            let mut fits_exponent = true;
            assert(cs.subrange(digits_start as int, digits_start as int) =~= Seq::<char>::empty());
            while self.pos < self.chars.len() && '0' <= self.chars[self.pos] && self.chars[self.pos] <= '9'
                invariant
                    self.chars@ == cs,
                    digits_start <= self.pos <= cs.len(),
                    digits_end(cs, digits_start as int) == digits_end(cs, self.pos as int),
                    0 <= value <= i32::MAX,
                    fits_exponent == (decimal(cs.subrange(digits_start as int, self.pos as int)) <= i32::MAX),
                    fits_exponent ==> value == decimal(cs.subrange(digits_start as int, self.pos as int)),
                decreases cs.len() - self.pos,
            {
                let c = self.chars[self.pos];
                proof {
                    assert(cs.subrange(digits_start as int, self.pos + 1) =~= cs.subrange(digits_start as int, self.pos as int).push(c));
                    lemma_decimal_push(cs.subrange(digits_start as int, self.pos as int), c);
                }
                let digit = ((c as u32) - ('0' as u32)) as i64;
                if fits_exponent {
                    let next = value * 10 + digit;
                    if next <= 2147483647 {
                        value = next;
                    } else {
                        fits_exponent = false;
                    }
                }
                self.pos = self.pos + 1;
            }
            if self.pos == digits_start {
                self.pos = save;
            } else if fits_exponent {
                exponent = sign * value;
            }
        }
        let net: i128 = (exponent as i128) - (scale as i128);
        proof {
            let (x, end) = exponent_part(cs, m as int);
            assert(x == exponent);
            assert(end == self.pos);
        }
        if fits_mantissa {
            match literal(mant, net) {
                Some(q) => {
                    return Ok(Expr::Exact(q));
                },
                None => {},
            }
        }
        let mut text: Vec<char> = Vec::new();
        let mut underscore = false;
        let mut i: usize = start;
        while i < self.pos
            invariant
                self.chars@ == cs,
                start <= i <= self.pos <= cs.len(),
                text@ == cs.subrange(start as int, i as int),
                underscore == text@.contains('_'),
            decreases self.pos - i,
        {
            let c = self.chars[i];
            if c == '_' {
                underscore = true;
            }
            proof {
                assert(cs.subrange(start as int, i + 1) =~= text@.push(c));
                if text@.contains('_') {
                    let w = choose|w: int| 0 <= w < text@.len() && text@[w] == '_';
                    assert(text@.push(c)[w] == '_');
                }
                if c == '_' {
                    assert(text@.push(c)[text@.len() as int] == '_');
                }
                if text@.push(c).contains('_') && c != '_' {
                    let w = choose|w: int| 0 <= w < text@.push(c).len() && text@.push(c)[w] == '_';
                    assert(text@[w] == '_');
                }
            }
            text.push(c);
            i = i + 1;
        }
        if underscore {
            return Err(self.error("malformed number"));
        }
        Ok(Expr::Inexact(text))
    }
}

impl Parser {
    fn expr(&mut self) -> (r: Result<Expr, ExprError>)
        requires
            old(self).pos <= old(self).chars@.len(),
        ensures
            final(self).chars@ == old(self).chars@,
            realizes(read_expr(old(self).chars@, old(self).pos as int), r, final(self).pos as int),
            r is Ok ==> old(self).pos <= final(self).pos <= final(self).chars@.len(),
        decreases old(self).chars@.len() - old(self).pos, 7int,
    {
        let ghost cs = self.chars@;
        let ghost p0 = self.pos as int;
        let mut lhs = match self.term() {
            Ok(e) => e,
            Err(e) => {
                return Err(e);
            },
        };
        loop
            invariant
                self.chars@ == cs,
                cs == old(self).chars@,
                p0 == old(self).pos,
                p0 <= self.pos <= cs.len(),
                well_formed(lhs),
                read_expr(cs, p0) == expr_rest(cs, formula_of(lhs), self.pos as int),
            decreases cs.len() - self.pos,
        {
            let ghost p1 = self.pos as int;
            self.skip_ws();
            let ghost q = self.pos as int;
            let n = self.chars.len();
            match self.peek() {
                Some(c) => {
                    if c == '+' || c == '-' {
                        self.pos = self.pos + 1;
                        let rhs = match self.term() {
                            Ok(e) => e,
                            Err(e) => {
                                return Err(e);
                            },
                        };
                        lhs = if c == '+' {
                            Expr::Add(Box::new(lhs), Box::new(rhs))
                        } else {
                            Expr::Sub(Box::new(lhs), Box::new(rhs))
                        };
                    } else {
                        return Ok(lhs);
                    }
                },
                None => {
                    return Ok(lhs);
                },
            }
        }
    }

    fn term(&mut self) -> (r: Result<Expr, ExprError>)
        requires
            old(self).pos <= old(self).chars@.len(),
        ensures
            final(self).chars@ == old(self).chars@,
            realizes(read_term(old(self).chars@, old(self).pos as int), r, final(self).pos as int),
            r is Ok ==> old(self).pos <= final(self).pos <= final(self).chars@.len(),
        decreases old(self).chars@.len() - old(self).pos, 5int,
    {
        let ghost cs = self.chars@;
        let ghost p0 = self.pos as int;
        let mut lhs = match self.unary() {
            Ok(e) => e,
            Err(e) => {
                return Err(e);
            },
        };
        loop
            invariant
                self.chars@ == cs,
                cs == old(self).chars@,
                p0 == old(self).pos,
                p0 <= self.pos <= cs.len(),
                well_formed(lhs),
                read_term(cs, p0) == term_rest(cs, formula_of(lhs), self.pos as int),
            decreases cs.len() - self.pos,
        {
            self.skip_ws();
            let n = self.chars.len();
            match self.peek() {
                Some(c) => {
                    if c == '*' || c == '/' {
                        self.pos = self.pos + 1;
                        let rhs = match self.unary() {
                            Ok(e) => e,
                            Err(e) => {
                                return Err(e);
                            },
                        };
                        lhs = if c == '*' {
                            Expr::Mul(Box::new(lhs), Box::new(rhs))
                        } else {
                            Expr::Div(Box::new(lhs), Box::new(rhs))
                        };
                    } else {
                        return Ok(lhs);
                    }
                },
                None => {
                    return Ok(lhs);
                },
            }
        }
    }

    fn unary(&mut self) -> (r: Result<Expr, ExprError>)
        requires
            old(self).pos <= old(self).chars@.len(),
        ensures
            final(self).chars@ == old(self).chars@,
            realizes(read_unary(old(self).chars@, old(self).pos as int), r, final(self).pos as int),
            r is Ok ==> old(self).pos <= final(self).pos <= final(self).chars@.len(),
        decreases old(self).chars@.len() - old(self).pos, 3int,
    {
        self.skip_ws();
        let n = self.chars.len();
        match self.peek() {
            Some(c) => {
                if c == '-' {
                    self.pos = self.pos + 1;
                    let inner = match self.unary() {
                        Ok(e) => e,
                        Err(e) => {
                            return Err(e);
                        },
                    };
                    Ok(Expr::Neg(Box::new(inner)))
                } else if c == '+' {
                    self.pos = self.pos + 1;
                    self.unary()
                } else {
                    self.power()
                }
            },
            None => self.power(),
        }
    }

    fn power(&mut self) -> (r: Result<Expr, ExprError>)
        requires
            old(self).pos <= old(self).chars@.len(),
        ensures
            final(self).chars@ == old(self).chars@,
            realizes(read_power(old(self).chars@, old(self).pos as int), r, final(self).pos as int),
            r is Ok ==> old(self).pos <= final(self).pos <= final(self).chars@.len(),
        decreases old(self).chars@.len() - old(self).pos, 2int,
    {
        let base = match self.atom() {
            Ok(e) => e,
            Err(e) => {
                return Err(e);
            },
        };
        self.skip_ws();
        let n = self.chars.len();
        match self.peek() {
            Some(c) => {
                if c == '^' {
                    self.pos = self.pos + 1;
                    let exponent = match self.unary() {
                        Ok(e) => e,
                        Err(e) => {
                            return Err(e);
                        },
                    };
                    Ok(Expr::Pow(Box::new(base), Box::new(exponent)))
                } else {
                    Ok(base)
                }
            },
            None => Ok(base),
        }
    }

    fn atom(&mut self) -> (r: Result<Expr, ExprError>)
        requires
            old(self).pos <= old(self).chars@.len(),
        ensures
            final(self).chars@ == old(self).chars@,
            realizes(read_atom(old(self).chars@, old(self).pos as int), r, final(self).pos as int),
            r is Ok ==> old(self).pos <= final(self).pos <= final(self).chars@.len(),
        decreases old(self).chars@.len() - old(self).pos, 1int,
    {
        self.skip_ws();
        let n = self.chars.len();
        match self.peek() {
            None => Err(self.error("unexpected end of expression")),
            Some(c) => {
                if c == '(' {
                    self.pos = self.pos + 1;
                    let inner = match self.expr() {
                        Ok(e) => e,
                        Err(e) => {
                            return Err(e);
                        },
                    };
                    if !self.eat(')') {
                        return Err(self.error("missing closing parenthesis"));
                    }
                    Ok(inner)
                } else if ('0' <= c && c <= '9') || c == '.' {
                    self.number()
                } else if is_alphabetic(c) || c == '_' {
                    self.identifier()
                } else {
                    Err(self.error("unexpected character"))
                }
            },
        }
    }

    fn identifier(&mut self) -> (r: Result<Expr, ExprError>)
        requires
            old(self).pos <= old(self).chars@.len(),
        ensures
            final(self).chars@ == old(self).chars@,
            realizes(read_name(old(self).chars@, old(self).pos as int), r, final(self).pos as int),
            r is Ok ==> old(self).pos <= final(self).pos <= final(self).chars@.len(),
        decreases old(self).chars@.len() - old(self).pos, 0int,
    {
        let ghost cs = self.chars@;
        let start = self.pos;
        while self.pos < self.chars.len() && (is_alphanumeric(self.chars[self.pos]) || self.chars[self.pos] == '_')
            invariant
                self.chars@ == cs,
                cs == old(self).chars@,
                start == old(self).pos,
                start <= self.pos <= cs.len(),
                name_end(cs, start as int) == name_end(cs, self.pos as int),
            decreases cs.len() - self.pos,
        {
            self.pos = self.pos + 1;
        }
        let mut name: Vec<char> = Vec::new();
        let mut i: usize = start;
        while i < self.pos
            invariant
                self.chars@ == cs,
                cs == old(self).chars@,
                start == old(self).pos,
                name_end(cs, start as int) == self.pos,
                start <= i <= self.pos <= cs.len(),
                name@ == cs.subrange(start as int, i as int).map_values(|c: char| ascii_lower(c)),
            decreases self.pos - i,
        {
            let c = lower(self.chars[i]);
            name.push(c);
            assert(cs.subrange(start as int, i + 1).map_values(|c: char| ascii_lower(c)) =~= cs.subrange(start as int, i as int).map_values(|c: char| ascii_lower(c)).push(c));
            i = i + 1;
        }
        if spells(&name, "pi") {
            return Ok(Expr::Pi);
        }
        if spells(&name, "e") {
            return Ok(Expr::E);
        }
        if !self.eat('(') {
            return Err(self.error("unknown constant"));
        }
        let arg = match self.expr() {
            Ok(e) => e,
            Err(e) => {
                return Err(e);
            },
        };
        if !self.eat(')') {
            return Err(self.error("missing closing parenthesis"));
        }
        let function = if spells(&name, "sqrt") {
            Some(Function::Sqrt)
        } else if spells(&name, "cbrt") {
            Some(Function::Cbrt)
        } else if spells(&name, "exp") {
            Some(Function::Exp)
        } else if spells(&name, "ln") || spells(&name, "log") {
            Some(Function::Ln)
        } else if spells(&name, "log10") {
            Some(Function::Log10)
        } else if spells(&name, "sin") {
            Some(Function::Sin)
        } else if spells(&name, "cos") {
            Some(Function::Cos)
        } else if spells(&name, "tan") {
            Some(Function::Tan)
        } else if spells(&name, "atan") {
            Some(Function::Atan)
        } else if spells(&name, "abs") {
            Some(Function::Abs)
        } else {
            None
        };
        match function {
            Some(f) => Ok(Expr::Call(f, Box::new(arg))),
            None => Err(self.error("unknown function")),
        }
    }
}

/// Whether a result is what reading a whole input gives.
pub open spec fn answers(o: Outcome, r: Result<Expr, ExprError>) -> bool {
    match o {
        Outcome::Parsed(f, _) => r is Ok && formula_of(r->Ok_0) == f && well_formed(r->Ok_0),
        Outcome::Failed(m, q) => r is Err && r->Err_0.message@ == m && r->Err_0.position == q,
    }
}

/// Read an arithmetic expression.
pub fn parse(input: &str) -> (r: Result<Expr, ExprError>)
    ensures
        answers(read_input(input@), r),
{
    let mut p = Parser { chars: chars_of(input), pos: 0 };
    p.skip_ws();
    let value = match p.expr() {
        Ok(e) => e,
        Err(e) => {
            return Err(e);
        },
    };
    p.skip_ws();
    if p.pos < p.chars.len() {
        return Err(p.error("unexpected trailing input"));
    }
    Ok(value)
}

/// A perfect square.
pub open spec fn is_square(n: int) -> bool {
    exists|k: nat| #[trigger] (k * k) == n
}

/// The square root of a perfect square.
pub open spec fn root(n: int) -> nat {
    choose|k: nat| #[trigger] (k * k) == n
}

/// The value of a formula in the rationals, as far as they reach: the
/// operations fail where the rational arithmetic overflows, and constants,
/// literals read as floating point and every function but `sqrt` of a
/// perfect square and `abs` leave the rationals. A power stays exact for an
/// exact integer exponent of at most 64 in size.
pub open spec fn exact_spec(f: Formula) -> Option<(int, int)>
    decreases f,
{
    match f {
        Formula::Exact(p) => Some(p),
        Formula::Neg(a) => match exact_spec(*a) {
            Some(x) => Some((-x.0, x.1)),
            None => None,
        },
        Formula::Add(a, b) => match (exact_spec(*a), exact_spec(*b)) {
            (Some(x), Some(y)) => if add_fits(x, y) {
                Some(canonical_form(sum_pair(x, y)))
            } else {
                None
            },
            _ => None,
        },
        Formula::Sub(a, b) => match (exact_spec(*a), exact_spec(*b)) {
            (Some(x), Some(y)) => if add_fits(x, (-y.0, y.1)) {
                Some(canonical_form(difference_pair(x, y)))
            } else {
                None
            },
            _ => None,
        },
        Formula::Mul(a, b) => match (exact_spec(*a), exact_spec(*b)) {
            (Some(x), Some(y)) => if mul_fits(x, y) {
                Some(canonical_form(product_pair(x, y)))
            } else {
                None
            },
            _ => None,
        },
        Formula::Div(a, b) => match (exact_spec(*a), exact_spec(*b)) {
            (Some(x), Some(y)) => if y.0 != 0 && mul_fits(x, (y.1, y.0)) {
                Some(canonical_form(quotient_pair(x, y)))
            } else {
                None
            },
            _ => None,
        },
        Formula::Pow(a, b) => match (exact_spec(*a), exact_spec(*b)) {
            (Some(x), Some(e)) => if e.1 == 1 && -64 <= e.0 <= 64 {
                let base = if e.0 < 0 {
                    reciprocal(x)
                } else {
                    x
                };
                if e.0 < 0 && x.0 == 0 {
                    None
                } else if pow_fits(base, abs(e.0)) {
                    Some(power_pair(base, abs(e.0)))
                } else {
                    None
                }
            } else {
                None
            },
            _ => None,
        },
        Formula::Call(Function::Sqrt, a) => match exact_spec(*a) {
            Some(x) => if x.0 >= 0 && is_square(x.0) && is_square(x.1) {
                Some(canonical_form((root(x.0) as int, root(x.1) as int)))
            } else {
                None
            },
            None => None,
        },
        Formula::Call(Function::Abs, a) => match exact_spec(*a) {
            Some(x) => Some((abs(x.0) as int, x.1)),
            None => None,
        },
        _ => None,
    }
}

/// The square root of `n` when `n` is a perfect square.
fn exact_root(n: i128) -> (r: Option<i128>)
    requires
        n >= 0,
    ensures
        r is Some <==> is_square(n as int),
        r matches Some(k) ==> k >= 0 && k == root(n as int),
{
    let target = n as u128;
    let mut lo: u128 = 0;
    let mut hi: u128 = 0x1_0000_0000_0000_0000;
    assert(hi * hi > n) by (nonlinear_arith)
        requires
            hi == 0x1_0000_0000_0000_0000u128,
            n <= i128::MAX,
    ;
    while hi - lo > 1
        invariant
            lo < hi <= 0x1_0000_0000_0000_0000,
            lo * lo <= n,
            n < hi * hi,
            target == n,
        decreases hi - lo,
    {
        let mid = lo + (hi - lo) / 2;
        assert(mid * mid < 0x1_0000_0000_0000_0000_0000_0000_0000_0000int) by (nonlinear_arith)
            requires
                mid < 0x1_0000_0000_0000_0000u128,
        ;
        if mid * mid <= target {
            lo = mid;
        } else {
            hi = mid;
        }
    }
    assert(hi == lo + 1);
    proof {
        assert forall|k: nat| #[trigger] (k * k) == n implies k == lo by {
            if k < lo {
                assert(k * k < lo * lo) by (nonlinear_arith)
                    requires
                        k < lo,
                ;
            } else if k > lo {
                assert(k * k >= hi * hi) by (nonlinear_arith)
                    requires
                        k >= hi,
                ;
            }
        }
    }
    if lo * lo == target {
        assert(((lo as nat) * (lo as nat)) == n);
        Some(lo as i128)
    } else {
        None
    }
}

/// The value of an expression in the rationals, `None` where it leaves them.
pub fn exact_value(e: &Expr) -> (r: Option<Rational>)
    requires
        well_formed(*e),
    ensures
        r is Some <==> exact_spec(formula_of(*e)) is Some,
        r matches Some(q) ==> q.wf() && q@ == exact_spec(formula_of(*e))->0,
    decreases e,
{
    match e {
        Expr::Exact(q) => Some(*q),
        Expr::Neg(a) => match exact_value(a) {
            Some(x) => Some(x.neg()),
            None => None,
        },
        Expr::Add(a, b) => match (exact_value(a), exact_value(b)) {
            (Some(x), Some(y)) => match x.checked_add(y) {
                Some(q) => {
                    proof {
                        assert(x@.1 * y@.1 != 0) by (nonlinear_arith)
                            requires
                                x@.1 > 0,
                                y@.1 > 0,
                        ;
                        lemma_is_canonical_form(q, sum_pair(x@, y@));
                    }
                    Some(q)
                },
                None => None,
            },
            _ => None,
        },
        Expr::Sub(a, b) => match (exact_value(a), exact_value(b)) {
            (Some(x), Some(y)) => match x.checked_sub(y) {
                Some(q) => {
                    proof {
                        assert(x@.1 * y@.1 != 0) by (nonlinear_arith)
                            requires
                                x@.1 > 0,
                                y@.1 > 0,
                        ;
                        lemma_is_canonical_form(q, difference_pair(x@, y@));
                    }
                    Some(q)
                },
                None => None,
            },
            _ => None,
        },
        Expr::Mul(a, b) => match (exact_value(a), exact_value(b)) {
            (Some(x), Some(y)) => match x.checked_mul(y) {
                Some(q) => {
                    proof {
                        assert(x@.1 * y@.1 != 0) by (nonlinear_arith)
                            requires
                                x@.1 > 0,
                                y@.1 > 0,
                        ;
                        lemma_is_canonical_form(q, product_pair(x@, y@));
                    }
                    Some(q)
                },
                None => None,
            },
            _ => None,
        },
        Expr::Div(a, b) => match (exact_value(a), exact_value(b)) {
            (Some(x), Some(y)) => match x.checked_div(y) {
                Some(q) => {
                    proof {
                        assert(x@.1 * y@.0 != 0) by (nonlinear_arith)
                            requires
                                x@.1 > 0,
                                y@.0 != 0,
                        ;
                        lemma_is_canonical_form(q, quotient_pair(x@, y@));
                    }
                    Some(q)
                },
                None => None,
            },
            _ => None,
        },
        Expr::Pow(a, b) => match (exact_value(a), exact_value(b)) {
            (Some(x), Some(p)) => {
                if p.denominator() == 1 && -64 <= p.numerator() && p.numerator() <= 64 {
                    x.checked_powi(p.numerator() as i32)
                } else {
                    None
                }
            },
            _ => None,
        },
        Expr::Call(Function::Sqrt, a) => match exact_value(a) {
            Some(x) => {
                let n = x.numerator();
                let d = x.denominator();
                if n >= 0 {
                    match (exact_root(n), exact_root(d)) {
                        (Some(sn), Some(sd)) => {
                            proof {
                                let k = root(d as int);
                                assert(k * k == d);
                                assert(d > 0);
                                if sd == 0 {
                                    assert(k == 0);
                                    assert(k * k == 0) by (nonlinear_arith)
                                        requires
                                            k == 0,
                                    ;
                                }
                            }
                            match Rational::new(sn, sd) {
                                Some(q) => {
                                    proof {
                                        lemma_is_canonical_form(q, (sn as int, sd as int));
                                    }
                                    Some(q)
                                },
                                None => None,
                            }
                        },
                        _ => None,
                    }
                } else {
                    None
                }
            },
            None => None,
        },
        Expr::Call(Function::Abs, a) => match exact_value(a) {
            Some(x) => {
                if x.numerator() < 0 {
                    Some(x.neg())
                } else {
                    Some(x)
                }
            },
            None => None,
        },
        _ => None,
    }
}

/// `abs` is the magnitude: it is defined exactly where its argument is, its
/// value is never negative, it leaves a value that is not negative as it is,
/// and it agrees with negation on a negative one.
pub proof fn law_abs_is_magnitude(a: Formula)
    ensures
        match exact_spec(Formula::Call(Function::Abs, Box::new(a))) {
            Some(x) => x.0 >= 0,
            None => exact_spec(a) is None,
        },
        match exact_spec(a) {
            Some(y) => if y.0 >= 0 {
                exact_spec(Formula::Call(Function::Abs, Box::new(a))) == Some(y)
            } else {
                exact_spec(Formula::Call(Function::Abs, Box::new(a))) == exact_spec(Formula::Neg(Box::new(a)))
            },
            None => exact_spec(Formula::Call(Function::Abs, Box::new(a))) is None,
        },
{
}

/// Negating twice gives the value back.
pub proof fn law_neg_neg(a: Formula)
    ensures
        exact_spec(Formula::Neg(Box::new(Formula::Neg(Box::new(a))))) == exact_spec(a),
{
    let once = exact_spec(Formula::Neg(Box::new(a)));
    assert(once == match exact_spec(a) {
        Some(x) => Some((-x.0, x.1)),
        None => None,
    });
}

/// Subtracting is adding the negation.
pub proof fn law_sub_is_add_neg(a: Formula, b: Formula)
    ensures
        exact_spec(Formula::Sub(Box::new(a), Box::new(b))) == exact_spec(
            Formula::Add(Box::new(a), Box::new(Formula::Neg(Box::new(b)))),
        ),
{
    let nb = exact_spec(Formula::Neg(Box::new(b)));
    assert(nb == match exact_spec(b) {
        Some(y) => Some((-y.0, y.1)),
        None => None,
    });
    match (exact_spec(a), exact_spec(b)) {
        (Some(x), Some(y)) => {
            assert((-y.0) * x.1 == -(y.0 * x.1)) by (nonlinear_arith);
            assert(difference_pair(x, y) == sum_pair(x, (-y.0, y.1)));
        },
        _ => {},
    }
}

/// A quotient times its divisor is the dividend: where `a / b` is exact,
/// its value times that of `b` is that of `a`.
pub proof fn law_quotient_times_divisor_is_dividend(a: Formula, b: Formula)
    ensures
        match (exact_spec(a), exact_spec(b), exact_spec(Formula::Div(Box::new(a), Box::new(b)))) {
            (Some(x), Some(y), Some(q)) => x.1 > 0 && y.1 > 0 ==> y.0 != 0 && same_value(
                product_pair(q, y),
                x,
            ),
            (Some(x), Some(y), None) => y.0 == 0 || !mul_fits(x, (y.1, y.0)),
            _ => exact_spec(Formula::Div(Box::new(a), Box::new(b))) is None,
        },
{
    match (exact_spec(a), exact_spec(b)) {
        (Some(x), Some(y)) => {
            if y.0 != 0 && mul_fits(x, (y.1, y.0)) && x.1 > 0 && y.1 > 0 {
                let p = quotient_pair(x, y);
                assert(p.1 != 0) by (nonlinear_arith)
                    requires
                        p.1 == x.1 * y.0,
                        x.1 > 0,
                        y.0 != 0,
                ;
                lemma_canonical_form_exists(p);
                let q = canonical_form(p);
                assert(same_value(product_pair(q, y), x)) by (nonlinear_arith)
                    requires
                        q.0 * p.1 == p.0 * q.1,
                        p.0 == x.0 * y.1,
                        p.1 == x.1 * y.0,
                        y.1 > 0,
                        y.0 != 0,
                {
                    assert(q.0 * y.0 * x.1 * y.1 == x.0 * q.1 * y.1 * y.1);
                }
            }
        },
        _ => {},
    }
}

/// The square root is the non-negative number whose square is the argument.
pub proof fn law_sqrt_squares_back(a: Formula)
    ensures
        match (exact_spec(a), exact_spec(Formula::Call(Function::Sqrt, Box::new(a)))) {
            (Some(x), Some(r)) => x.1 > 0 ==> r.0 >= 0 && same_value(product_pair(r, r), x),
            (None, r) => r is None,
            _ => true,
        },
{
    match exact_spec(a) {
        Some(x) => {
            if x.0 >= 0 && is_square(x.0) && is_square(x.1) && x.1 > 0 {
                let n = root(x.0) as int;
                let d = root(x.1) as int;
                assert(n * n == x.0);
                assert(d * d == x.1);
                assert(d != 0) by (nonlinear_arith)
                    requires
                        d * d == x.1,
                        x.1 > 0,
                ;
                assert(d > 0);
                lemma_canonical_form_exists((n, d));
                let c = canonical_form((n, d));
                assert(c.0 >= 0) by (nonlinear_arith)
                    requires
                        c.0 * d == n * c.1,
                        n >= 0,
                        d > 0,
                        c.1 > 0,
                ;
                assert(same_value(product_pair(c, c), x)) by (nonlinear_arith)
                    requires
                        c.0 * d == n * c.1,
                        n * n == x.0,
                        d * d == x.1,
                {
                    assert((c.0 * d) * (c.0 * d) == (n * c.1) * (n * c.1));
                }
            }
        },
        None => {},
    }
}

/// Every fraction with a nonzero denominator has a canonical form.
pub proof fn lemma_canonical_form_exists(p: (int, int))
    requires
        p.1 != 0,
    ensures
        canonical(canonical_form(p)),
        same_value(canonical_form(p), p),
{
    let a = abs(p.0);
    let b = abs(p.1);
    lemma_reduced_parts(a, b);
    let g = gcd_spec(a, b);
    let a1 = a / g;
    let b1 = b / g;
    assert(b1 > 0) by (nonlinear_arith)
        requires
            b == g * b1,
            b > 0,
    ;
    let m: int = if (p.0 >= 0) == (p.1 > 0) {
        a1 as int
    } else {
        -(a1 as int)
    };
    let q = (m, b1 as int);
    assert(abs(m) == a1);
    assert(canonical(q));
    if p.0 >= 0 && p.1 > 0 {
        assert(m * p.1 == p.0 * b1) by (nonlinear_arith)
            requires
                p.0 == g * a1,
                p.1 == g * b1,
                m == a1,
        ;
    } else if p.0 >= 0 {
        assert(m * p.1 == p.0 * b1) by (nonlinear_arith)
            requires
                p.0 == g * a1,
                p.1 == -(g * b1),
                m == -a1,
        ;
    } else if p.1 > 0 {
        assert(m * p.1 == p.0 * b1) by (nonlinear_arith)
            requires
                p.0 == -(g * a1),
                p.1 == g * b1,
                m == -a1,
        ;
    } else {
        assert(m * p.1 == p.0 * b1) by (nonlinear_arith)
            requires
                p.0 == -(g * a1),
                p.1 == -(g * b1),
                m == a1,
        ;
    }
    assert(canonical(q) && same_value(q, p));
}

/// Any value to the power zero is one.
pub proof fn law_power_zero(a: Formula)
    ensures
        exact_spec(a) is Some ==> exact_spec(Formula::Pow(Box::new(a), Box::new(Formula::Exact((0, 1)))))
            == Some((1int, 1int)),
{
    assert(exact_spec(Formula::Exact((0, 1))) == Some((0int, 1int)));
    match exact_spec(a) {
        Some(x) => {
            assert(power(x.0, 0) == 1 && power(x.1, 0) == 1);
            assert(pow_fits(x, 0));
            assert(power_pair(x, 0) == (1int, 1int));
        },
        None => {},
    }
}

/// A value to the power one is itself, for a canonical value within the
/// range of an `i128`.
pub proof fn law_power_one(a: Formula)
    ensures
        match exact_spec(a) {
            Some(x) => canonical(x) && abs(x.0) <= i128::MAX && x.1 <= i128::MAX ==> exact_spec(
                Formula::Pow(Box::new(a), Box::new(Formula::Exact((1, 1)))),
            ) == Some(x),
            None => exact_spec(Formula::Pow(Box::new(a), Box::new(Formula::Exact((1, 1))))) is None,
        },
{
    assert(exact_spec(Formula::Exact((1, 1))) == Some((1int, 1int)));
    match exact_spec(a) {
        Some(x) => {
            assert(power(x.0, 1) == x.0 * power(x.0, 0));
            assert(power(x.1, 1) == x.1 * power(x.1, 0));
            if canonical(x) && x.0 == 0 {
                assert(gcd_spec(1, 0) == 1);
                assert(gcd_spec(0, x.1 as nat) == x.1) by {
                    assert(0nat % (x.1 as nat) == 0);
                    assert(gcd_spec(x.1 as nat, 0) == x.1);
                }
            }
        },
        None => {},
    }
}

/// Addition of formulas commutes: `a + b` is exact exactly when `b + a` is,
/// with the same value, for values with positive denominators.
pub proof fn law_add_commutes(a: Formula, b: Formula)
    ensures
        match (exact_spec(a), exact_spec(b)) {
            (Some(x), Some(y)) => x.1 > 0 && y.1 > 0 ==> exact_spec(Formula::Add(Box::new(a), Box::new(b)))
                == exact_spec(Formula::Add(Box::new(b), Box::new(a))),
            _ => exact_spec(Formula::Add(Box::new(a), Box::new(b))) is None && exact_spec(
                Formula::Add(Box::new(b), Box::new(a)),
            ) is None,
        },
{
    match (exact_spec(a), exact_spec(b)) {
        (Some(x), Some(y)) => {
            if x.1 > 0 && y.1 > 0 {
                lemma_gcd_commutes(x.1 as nat, y.1 as nat);
                lemma_reduced_parts(x.1 as nat, y.1 as nat);
                let g = gcd_spec(x.1 as nat, y.1 as nat) as int;
                let p = x.1 / g;
                let q = y.1 / g;
                assert(p * y.1 == q * x.1) by (nonlinear_arith)
                    requires
                        x.1 == g * p,
                        y.1 == g * q,
                ;
                assert(sum_pair(x, y) == sum_pair(y, x)) by (nonlinear_arith);
            }
        },
        _ => {},
    }
}

/// Multiplication of formulas commutes in the same sense.
pub proof fn law_mul_commutes(a: Formula, b: Formula)
    ensures
        match (exact_spec(a), exact_spec(b)) {
            (Some(x), Some(y)) => exact_spec(Formula::Mul(Box::new(a), Box::new(b))) == exact_spec(
                Formula::Mul(Box::new(b), Box::new(a)),
            ),
            _ => exact_spec(Formula::Mul(Box::new(a), Box::new(b))) is None && exact_spec(
                Formula::Mul(Box::new(b), Box::new(a)),
            ) is None,
        },
{
    match (exact_spec(a), exact_spec(b)) {
        (Some(x), Some(y)) => {
            assert(product_pair(x, y) == product_pair(y, x)) by (nonlinear_arith);
            let g1 = gcd_spec(abs(x.0), abs(y.1)) as int;
            let g2 = gcd_spec(abs(y.0), abs(x.1)) as int;
            assert((x.0 / g1) * (y.0 / g2) == (y.0 / g2) * (x.0 / g1)) by (nonlinear_arith);
            assert((x.1 / g2) * (y.1 / g1) == (y.1 / g1) * (x.1 / g2)) by (nonlinear_arith);
        },
        _ => {},
    }
}

} // verus!
