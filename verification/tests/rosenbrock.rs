use solvers_core::analysis::conditions::{exact_order, stage_weights};
use solvers_core::analysis::order::trees_up_to;
use solvers_core::analysis::rosenbrock::{ros_order, ros_stage_weights, verify_rosenbrock_exact};
use solvers_core::method::rosenbrock::check_rosenbrock_shape;
use solvers_core::num::rational::Rational;

fn q(n: i128, d: i128) -> Rational {
    Rational::new(n, d).unwrap()
}

/// Rows as a file writes them, padded with zeros to a square matrix.
fn square(rows: &[&[(i128, i128)]], s: usize) -> Vec<Vec<Rational>> {
    rows.iter()
        .map(|r| {
            let mut row: Vec<Rational> = r.iter().map(|&(n, d)| q(n, d)).collect();
            row.resize(s, Rational::zero());
            row
        })
        .collect()
}

fn flags(rows: &[&[(i128, i128)]]) -> Vec<Vec<bool>> {
    rows.iter().map(|r| r.iter().map(|&(n, _)| n != 0).collect()).collect()
}

/// With no Jacobian coupling a Rosenbrock method is an explicit Runge-Kutta
/// method, and the two recursions have to agree tree for tree.
#[test]
fn the_rosenbrock_recursion_reduces_to_the_runge_kutta_one() {
    // Classical fourth order Runge-Kutta, written as a Rosenbrock method
    // with a Jacobian coupling that only carries the diagonal it needs to
    // be well posed at all.
    let alpha: &[&[(i128, i128)]] = &[&[], &[(1, 2)], &[(0, 1), (1, 2)], &[(0, 1), (0, 1), (1, 1)]];
    let gamma: &[&[(i128, i128)]] = &[
        &[(1, 1)],
        &[(0, 1), (1, 1)],
        &[(0, 1), (0, 1), (1, 1)],
        &[(0, 1), (0, 1), (0, 1), (1, 1)],
    ];
    assert!(check_rosenbrock_shape(&flags(alpha), &flags(gamma), 4, None).is_ok());
    let a = square(alpha, 4);
    let stripped = square(&[&[], &[], &[], &[]], 4);
    for tree in trees_up_to(5) {
        let x = ros_stage_weights(&a, &stripped, &tree).unwrap();
        let y = stage_weights(&a, &tree).unwrap();
        for (u, v) in x.iter().zip(&y) {
            assert_eq!(
                (u.numerator(), u.denominator()),
                (v.numerator(), v.denominator()),
                "tree {}",
                tree.to_string_compact()
            );
        }
    }
}

/// One stage with `gamma = 1/2` is second order and no more, which is the
/// smallest nontrivial statement the Rosenbrock conditions make.
#[test]
fn the_one_stage_rosenbrock_method_is_second_order_only_at_one_half() {
    for (numerator, denominator, expected) in [(1, 2, 2), (1, 1, 1)] {
        let alpha = square(&[&[]], 1);
        let gamma = square(&[&[(numerator, denominator)]], 1);
        let b = vec![q(1, 1)];
        assert_eq!(
            ros_order(&alpha, &gamma, &b, 6),
            Some(expected),
            "gamma = {numerator}/{denominator}"
        );
    }
}

#[test]
fn the_linearly_implicit_euler_method_is_first_order() {
    // The linearly implicit Euler method, alpha = 0 and gamma = 1, is of
    // order one, and so is the same weight taken as the embedded one.
    let alpha = square(&[&[]], 1);
    let gamma = square(&[&[(1, 1)]], 1);
    let b = vec![q(1, 1)];
    let r = verify_rosenbrock_exact(&alpha, &gamma, &b, Some(&b), 5).unwrap();
    assert_eq!((r.order, r.embedded_order), (1, Some(1)));
    let r = verify_rosenbrock_exact(&alpha, &gamma, &b, None, 5).unwrap();
    assert_eq!(r.embedded_order, None);
}

#[test]
fn without_jacobian_terms_the_order_is_the_runge_kutta_one() {
    let alpha: &[&[(i128, i128)]] = &[&[], &[(1, 2)], &[(0, 1), (1, 2)], &[(0, 1), (0, 1), (1, 1)]];
    let a = square(alpha, 4);
    let zero = square(&[&[], &[], &[], &[]], 4);
    let b = vec![q(1, 6), q(1, 3), q(1, 3), q(1, 6)];
    assert_eq!(ros_order(&a, &zero, &b, 6), Some(4));
    assert_eq!(ros_order(&a, &zero, &b, 6), exact_order(&a, &b, 6));
    assert_eq!(exact_order(&a, &b, 8), Some(4));
}
