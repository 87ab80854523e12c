use solvers_core::num::expr::{exact_value, parse, Expr, Function};
use solvers_core::num::rational::Rational;

/// The value of an expression in floating point, exact parts first.
fn float_of(e: &Expr) -> f64 {
    if let Some(q) = exact_value(e) {
        return q.numerator() as f64 / q.denominator() as f64;
    }
    match e {
        Expr::Exact(q) => q.numerator() as f64 / q.denominator() as f64,
        Expr::Inexact(t) => t.iter().collect::<String>().parse::<f64>().unwrap(),
        Expr::Pi => std::f64::consts::PI,
        Expr::E => std::f64::consts::E,
        Expr::Neg(a) => -float_of(a),
        Expr::Add(a, b) => float_of(a) + float_of(b),
        Expr::Sub(a, b) => float_of(a) - float_of(b),
        Expr::Mul(a, b) => float_of(a) * float_of(b),
        Expr::Div(a, b) => float_of(a) / float_of(b),
        Expr::Pow(a, b) => float_of(a).powf(float_of(b)),
        Expr::Call(f, a) => {
            let v = float_of(a);
            match f {
                Function::Sqrt => v.sqrt(),
                Function::Cbrt => v.cbrt(),
                Function::Exp => v.exp(),
                Function::Ln => v.ln(),
                Function::Log10 => v.log10(),
                Function::Sin => v.sin(),
                Function::Cos => v.cos(),
                Function::Tan => v.tan(),
                Function::Atan => v.atan(),
                Function::Abs => v.abs(),
            }
        }
    }
}

fn exact(s: &str) -> Option<Rational> {
    exact_value(&parse(s).unwrap())
}

fn approx(s: &str) -> f64 {
    float_of(&parse(s).unwrap())
}

fn failure(s: &str) -> (String, usize) {
    let e = parse(s).err().unwrap();
    (e.message, e.position)
}

#[test]
fn fractions_stay_exact() {
    let c = exact("1/4");
    assert!(c.is_some());
    assert_eq!(approx("1/4"), 0.25);
}

#[test]
fn decimals_are_rationalized() {
    let c = exact("0.25");
    assert!(c.is_some());
    assert_eq!(c.unwrap().denominator(), 4);
}

#[test]
fn long_fractions_survive() {
    let c = exact("2012122486997/3467029789466");
    assert!(c.is_some());
}

#[test]
fn irrationals_degrade() {
    let c = exact("(2 - sqrt(2))/4");
    assert!(c.is_none());
    assert!((approx("(2 - sqrt(2))/4") - (2.0 - 2f64.sqrt()) / 4.0).abs() < 1e-15);
}

#[test]
fn perfect_squares_stay_exact() {
    assert!(exact("sqrt(9/4)").is_some());
}

#[test]
fn precedence_and_signs() {
    assert_eq!(approx("1 - 2*3"), -5.0);
    assert_eq!(approx("2^3^2"), 512.0);
    assert_eq!(approx("-3/28"), -3.0 / 28.0);
    assert_eq!(approx("1.5e2"), 150.0);
}

#[test]
fn exact_values_are_in_lowest_terms() {
    let q = exact("6/8 + 1/4 * 2").unwrap();
    assert_eq!((q.numerator(), q.denominator()), (5, 4));
    let q = exact("sqrt(9/4)").unwrap();
    assert_eq!((q.numerator(), q.denominator()), (3, 2));
    let q = exact("-2^-2").unwrap();
    assert_eq!((q.numerator(), q.denominator()), (-1, 4));
    let q = exact("abs(-7/3)").unwrap();
    assert_eq!((q.numerator(), q.denominator()), (7, 3));
    let q = exact("1_000.5e-1").unwrap();
    assert_eq!((q.numerator(), q.denominator()), (2001, 20));
}

#[test]
fn names_are_read_in_any_case() {
    assert!(matches!(parse("PI").unwrap(), Expr::Pi));
    assert!(matches!(parse(" e ").unwrap(), Expr::E));
    assert_eq!(exact("SQRT(16)").unwrap().numerator(), 4);
    assert!(matches!(parse("Log(2)").unwrap(), Expr::Call(Function::Ln, _)));
}

#[test]
fn what_leaves_the_rationals() {
    assert!(exact("pi").is_none());
    assert!(exact("1/0").is_none());
    assert!(exact("0^-1").is_none());
    assert!(exact("2^(1/2)").is_none());
    assert!(exact("2^65").is_none());
    assert!(exact("sin(0)").is_none());
    assert!(exact("170141183460469231731687303715884105727 + 1").is_none());
    assert!(matches!(parse("1e400").unwrap(), Expr::Inexact(_)));
    assert_eq!(approx("1e400"), f64::INFINITY);
}

#[test]
fn each_error_says_what_and_where() {
    assert_eq!(failure(""), ("unexpected end of expression".to_string(), 0));
    assert_eq!(failure("1 +"), ("unexpected end of expression".to_string(), 3));
    assert_eq!(failure("(1 + 2"), ("missing closing parenthesis".to_string(), 6));
    assert_eq!(failure("sqrt(2"), ("missing closing parenthesis".to_string(), 6));
    assert_eq!(failure("1 2"), ("unexpected trailing input".to_string(), 2));
    assert_eq!(failure("#"), ("unexpected character".to_string(), 0));
    assert_eq!(failure("x + 1"), ("unknown constant".to_string(), 2));
    assert_eq!(failure("foo(1)"), ("unknown function".to_string(), 6));
    assert_eq!(failure("."), ("malformed number".to_string(), 0));
    assert_eq!(
        failure("1_0e400"),
        ("malformed number".to_string(), 7)
    );
}

#[test]
fn products_and_quotients_of_rationals() {
    let q = |n: i128, d: i128| Rational::new(n, d).unwrap();
    let a = q(2, 3);
    assert_eq!(a.checked_mul(Rational::one()), Some(a));
    assert_eq!(a.checked_mul(Rational::zero()), Some(Rational::zero()));
    assert_eq!(a.checked_mul(q(9, 4)), Rational::new(3, 2));
    assert_eq!(a.checked_mul(q(9, 4)), q(9, 4).checked_mul(a));
    assert_eq!(q(1, 2).checked_div(q(-3, 4)), Some(q(-2, 3)));
    assert_eq!(q(5, 7).checked_div(q(5, 7)), Some(Rational::one()));
    assert_eq!(a.checked_div(Rational::zero()), None);
    let quotient = q(1, 2).checked_div(q(-3, 4)).unwrap();
    assert_eq!(quotient.checked_mul(q(-3, 4)), Some(q(1, 2)));
}
