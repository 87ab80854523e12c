use solvers_core::analysis::conditions::{
    abscissae_consistent, check_condition, elementary_weight, exact_assumptions, exact_order, exact_stage_order,
    settle_order, stage_weights, verify_exact,
};
use solvers_core::analysis::order::{trees_of_order, Tree};
use solvers_core::analysis::pairs::{pair_order, verify_pair_exact};
use solvers_core::num::rational::Rational;

fn q(n: i128, d: i128) -> Rational {
    Rational::new(n, d).unwrap()
}

fn matrix(rows: &[&[(i128, i128)]]) -> Vec<Vec<Rational>> {
    rows.iter().map(|r| r.iter().map(|&(n, d)| q(n, d)).collect()).collect()
}

fn vector(v: &[(i128, i128)]) -> Vec<Rational> {
    v.iter().map(|&(n, d)| q(n, d)).collect()
}

fn rk4() -> (Vec<Vec<Rational>>, Vec<Rational>, Vec<Rational>) {
    (
        matrix(&[
            &[(0, 1), (0, 1), (0, 1), (0, 1)],
            &[(1, 2), (0, 1), (0, 1), (0, 1)],
            &[(0, 1), (1, 2), (0, 1), (0, 1)],
            &[(0, 1), (0, 1), (1, 1), (0, 1)],
        ]),
        vector(&[(1, 6), (1, 3), (1, 3), (1, 6)]),
        vector(&[(0, 1), (1, 2), (1, 2), (1, 1)]),
    )
}

#[test]
fn the_classical_method_has_order_four() {
    let (a, b, c) = rk4();
    assert_eq!(exact_order(&a, &b, 6), Some(4));
    assert_eq!(exact_order(&a, &b, 3), Some(3));
    assert_eq!(exact_order(&a, &b, 0), Some(0));
    assert_eq!(exact_stage_order(&a, &c, 6), Some(1));
    assert_eq!(abscissae_consistent(&a, &c), Some(true));
}

#[test]
fn low_order_methods() {
    // Forward Euler.
    let a = matrix(&[&[(0, 1)]]);
    assert_eq!(exact_order(&a, &vector(&[(1, 1)]), 5), Some(1));
    // Explicit midpoint.
    let a = matrix(&[&[(0, 1), (0, 1)], &[(1, 2), (0, 1)]]);
    assert_eq!(exact_order(&a, &vector(&[(0, 1), (1, 1)]), 5), Some(2));
    // Heun's third order method.
    let a = matrix(&[
        &[(0, 1), (0, 1), (0, 1)],
        &[(1, 3), (0, 1), (0, 1)],
        &[(0, 1), (2, 3), (0, 1)],
    ]);
    assert_eq!(exact_order(&a, &vector(&[(1, 4), (0, 1), (3, 4)]), 5), Some(3));
    // Weights that do not even sum to one.
    let a = matrix(&[&[(0, 1)]]);
    assert_eq!(exact_order(&a, &vector(&[(1, 2)]), 5), Some(0));
}

#[test]
fn implicit_methods() {
    // Backward Euler.
    let a = matrix(&[&[(1, 1)]]);
    let c = vector(&[(1, 1)]);
    assert_eq!(exact_order(&a, &vector(&[(1, 1)]), 5), Some(1));
    assert_eq!(exact_stage_order(&a, &c, 5), Some(1));
    // Implicit midpoint.
    let a = matrix(&[&[(1, 2)]]);
    assert_eq!(exact_order(&a, &vector(&[(1, 1)]), 5), Some(2));
    assert_eq!(exact_stage_order(&a, &vector(&[(1, 2)]), 5), Some(1));
    // Radau IIA with two stages: order 3, stage order 2.
    let a = matrix(&[&[(5, 12), (-1, 12)], &[(3, 4), (1, 4)]]);
    let b = vector(&[(3, 4), (1, 4)]);
    let c = vector(&[(1, 3), (1, 1)]);
    assert_eq!(exact_order(&a, &b, 6), Some(3));
    assert_eq!(exact_stage_order(&a, &c, 6), Some(2));
    // Lobatto IIIA with three stages: order 4, stage order 3.
    let a = matrix(&[
        &[(0, 1), (0, 1), (0, 1)],
        &[(5, 24), (1, 3), (-1, 24)],
        &[(1, 6), (2, 3), (1, 6)],
    ]);
    let b = vector(&[(1, 6), (2, 3), (1, 6)]);
    let c = vector(&[(0, 1), (1, 2), (1, 1)]);
    assert_eq!(exact_order(&a, &b, 6), Some(4));
    assert_eq!(exact_stage_order(&a, &c, 6), Some(3));
    assert_eq!(abscissae_consistent(&a, &c), Some(true));
    assert_eq!(abscissae_consistent(&a, &vector(&[(0, 1), (1, 3), (1, 1)])), Some(false));
}

#[test]
fn elementary_weights_of_the_classical_method() {
    let (a, b, _) = rk4();
    // Phi of the tree of order one is the sum of the weights.
    let leaf = Tree::leaf();
    let phi = elementary_weight(&a, &b, &leaf).unwrap();
    assert_eq!((phi.numerator(), phi.denominator()), (1, 1));
    let psi = stage_weights(&a, &leaf).unwrap();
    assert!(psi.iter().all(|p| p.numerator() == 1 && p.denominator() == 1));
    // The order five condition of the bushy tree fails: Phi = 5/24, not 1/5.
    let bushy = Tree { children: vec![Tree::leaf(), Tree::leaf(), Tree::leaf(), Tree::leaf()] };
    let phi = elementary_weight(&a, &b, &bushy).unwrap();
    assert_eq!((phi.numerator(), phi.denominator()), (5, 24));
    assert_eq!(check_condition(&a, &b, &bushy), Some(false));
    for tree in trees_of_order(4) {
        assert_eq!(check_condition(&a, &b, &tree), Some(true));
    }
}

#[test]
fn huge_coefficients_leave_the_condition_undecided() {
    let big: i128 = 1 << 100;
    let a = matrix(&[&[(big, 1), (0, 1)], &[(0, 1), (1 - big, 1)]]);
    let b = vector(&[(1, 2), (1, 2)]);
    // The conditions of orders one and two hold exactly; those of order three
    // square the row sums, which leaves the exact arithmetic.
    assert_eq!(exact_order(&a, &b, 2), Some(2));
    assert_eq!(exact_order(&a, &b, 4), None);
    assert_eq!(check_condition(&a, &b, &Tree::leaf()), Some(true));
    let cherry = Tree { children: vec![Tree::leaf(), Tree::leaf()] };
    assert_eq!(check_condition(&a, &b, &cherry), None);
    assert!(elementary_weight(&a, &b, &cherry).is_none());
}

#[test]
fn the_order_is_settled_by_trees_or_by_the_assumptions() {
    let s = settle_order(3, 10, 8);
    assert_eq!((s.order, s.from_trees), (3, true));
    let s = settle_order(10, 10, 16);
    assert_eq!((s.order, s.from_trees), (16, false));
    let s = settle_order(10, 10, 6);
    assert_eq!((s.order, s.from_trees), (10, true));
}

fn lobatto_iiia() -> (Vec<Vec<Rational>>, Vec<Rational>, Vec<Rational>) {
    (
        matrix(&[
            &[(0, 1), (0, 1), (0, 1)],
            &[(5, 24), (1, 3), (-1, 24)],
            &[(1, 6), (2, 3), (1, 6)],
        ]),
        vector(&[(1, 6), (2, 3), (1, 6)]),
        vector(&[(0, 1), (1, 2), (1, 1)]),
    )
}

#[test]
fn simplifying_assumptions_of_the_classical_method() {
    let (a, b, c) = rk4();
    let s = exact_assumptions(&a, &b, &c, 10).unwrap();
    assert_eq!((s.quadrature, s.stage, s.adjoint), (4, 1, 1));
    assert_eq!(s.certified_order(), 3);
}

#[test]
fn the_exact_report_of_the_classical_method() {
    let (a, b, c) = rk4();
    // The third order embedded weights of the 3/8 rule are not a pair for
    // RK4; a set of weights of order one shows the embedded search.
    let euler_weights = vector(&[(1, 1), (0, 1), (0, 1), (0, 1)]);
    let r = verify_exact(&a, &b, &c, Some(&euler_weights), 6).unwrap();
    assert_eq!(r.order, 4);
    assert!(r.from_trees);
    assert_eq!(r.embedded_order, Some(1));
    assert_eq!(r.stage_order, 1);
    assert!(r.consistent_abscissae);
    assert_eq!((r.assumptions.quadrature, r.assumptions.stage, r.assumptions.adjoint), (4, 1, 1));
    let r = verify_exact(&a, &b, &c, None, 6).unwrap();
    assert_eq!(r.embedded_order, None);
}

#[test]
fn butchers_theorem_takes_over_where_the_trees_stop() {
    let (a, b, c) = lobatto_iiia();
    let s = exact_assumptions(&a, &b, &c, 24).unwrap();
    assert_eq!((s.quadrature, s.stage), (4, 3));
    assert!(s.adjoint >= 1);
    assert_eq!(s.certified_order(), 4);
    // A search limited to order two cannot see the fourth order; the
    // assumptions can.
    let r = verify_exact(&a, &b, &c, None, 2).unwrap();
    assert_eq!(r.order, 4);
    assert!(!r.from_trees);
    let r = verify_exact(&a, &b, &c, None, 6).unwrap();
    assert_eq!(r.order, 4);
    assert!(r.from_trees);
    assert_eq!(r.stage_order, 3);
}

#[test]
fn identical_halves_make_the_method_itself() {
    let (a, b, c) = rk4();
    assert_eq!(pair_order(&a, &a, &b, &b, 5), Some(4));
    let r = verify_pair_exact(&a, &a, &b, &b, &c, &c, None, 5).unwrap();
    assert_eq!((r.order, r.explicit_order, r.implicit_order), (4, 4, 4));
    assert!(r.consistent_abscissae);
    assert_eq!(r.embedded_order, None);
}

#[test]
fn imex_euler_is_first_order() {
    let ae = matrix(&[&[(0, 1), (0, 1)], &[(1, 1), (0, 1)]]);
    let be = vector(&[(1, 1), (0, 1)]);
    let ai = matrix(&[&[(0, 1), (0, 1)], &[(0, 1), (1, 1)]]);
    let bi = vector(&[(0, 1), (1, 1)]);
    let c = vector(&[(0, 1), (1, 1)]);
    assert_eq!(pair_order(&ae, &ai, &be, &bi, 4), Some(1));
    let r = verify_pair_exact(&ae, &ai, &be, &bi, &c, &c, Some((&be, &bi)), 4).unwrap();
    assert_eq!((r.order, r.explicit_order, r.implicit_order), (1, 1, 1));
    assert_eq!(r.embedded_order, Some(1));
    assert!(r.consistent_abscissae);
}

#[test]
fn the_imex_midpoint_pair_is_second_order() {
    // Ascher, Ruuth and Spiteri's (1,2,2) pair.
    let ae = matrix(&[&[(0, 1), (0, 1)], &[(1, 2), (0, 1)]]);
    let be = vector(&[(0, 1), (1, 1)]);
    let ai = matrix(&[&[(0, 1), (0, 1)], &[(0, 1), (1, 2)]]);
    let bi = vector(&[(0, 1), (1, 1)]);
    let c = vector(&[(0, 1), (1, 2)]);
    assert_eq!(pair_order(&ae, &ai, &be, &bi, 4), Some(2));
    let r = verify_pair_exact(&ae, &ai, &be, &bi, &c, &c, None, 4).unwrap();
    assert_eq!((r.order, r.explicit_order, r.implicit_order), (2, 2, 2));
    let shifted = vector(&[(0, 1), (1, 3)]);
    let r = verify_pair_exact(&ae, &ai, &be, &bi, &c, &shifted, None, 4).unwrap();
    assert!(!r.consistent_abscissae);
}

fn dormand_prince() -> (Vec<Vec<Rational>>, Vec<Rational>, Vec<Rational>) {
    let z = (0, 1);
    (
        matrix(&[
            &[z, z, z, z, z, z, z],
            &[(1, 5), z, z, z, z, z, z],
            &[(3, 40), (9, 40), z, z, z, z, z],
            &[(44, 45), (-56, 15), (32, 9), z, z, z, z],
            &[(19372, 6561), (-25360, 2187), (64448, 6561), (-212, 729), z, z, z],
            &[(9017, 3168), (-355, 33), (46732, 5247), (49, 176), (-5103, 18656), z, z],
            &[(35, 384), z, (500, 1113), (125, 192), (-2187, 6784), (11, 84), z],
        ]),
        vector(&[(35, 384), z, (500, 1113), (125, 192), (-2187, 6784), (11, 84), z]),
        vector(&[z, (1, 5), (3, 10), (4, 5), (8, 9), (1, 1), (1, 1)]),
    )
}

fn heun3() -> (Vec<Vec<Rational>>, Vec<Rational>, Vec<Rational>) {
    (
        matrix(&[
            &[(0, 1), (0, 1), (0, 1)],
            &[(1, 3), (0, 1), (0, 1)],
            &[(0, 1), (2, 3), (0, 1)],
        ]),
        vector(&[(1, 4), (0, 1), (3, 4)]),
        vector(&[(0, 1), (1, 3), (2, 3)]),
    )
}

/// With both halves the same tableau the coupling conditions collapse onto
/// the classical ones, so the pair has to attain exactly what the single
/// method does.
#[test]
fn a_pair_of_identical_halves_is_the_method_itself() {
    for (id, (a, b, c)) in [("rk4", rk4()), ("rkdp54", dormand_prince()), ("heun3", heun3())] {
        let single = verify_exact(&a, &b, &c, None, 8).unwrap().order;
        let report = verify_pair_exact(&a, &a, &b, &b, &c, &c, None, 8).unwrap();
        assert_eq!(report.order, single, "{id}");
        assert!(report.consistent_abscissae, "{id}");
    }
}

#[test]
fn the_dormand_prince_pair_has_orders_five_and_four() {
    let (a, b, c) = dormand_prince();
    let z = (0, 1);
    let embedded = vector(&[(5179, 57600), z, (7571, 16695), (393, 640), (-92097, 339200), (187, 2100), (1, 40)]);
    let r = verify_exact(&a, &b, &c, Some(&embedded), 7).unwrap();
    assert_eq!(r.order, 5);
    assert_eq!(r.embedded_order, Some(4));
    assert!(r.consistent_abscissae);
}

#[test]
fn the_midpoint_rule_misses_both_third_order_conditions() {
    let a = matrix(&[&[(0, 1), (0, 1)], &[(1, 2), (0, 1)]]);
    let b = vector(&[(0, 1), (1, 1)]);
    let c = vector(&[(0, 1), (1, 2)]);
    let r = verify_exact(&a, &b, &c, None, 10).unwrap();
    assert_eq!(r.order, 2);
    assert_eq!(r.stage_order, 1);
    assert!(r.consistent_abscissae);
    assert!(r.from_trees);
    assert_eq!(r.embedded_order, None);
    let failing: Vec<String> = r.failing.iter().map(|t| t.to_string_compact()).collect();
    assert_eq!(failing, vec!["[t,t]", "[[t]]"]);
    assert!(r.failing.iter().all(|t| t.order() == 3));
    // Classical RK4 holds to order four, so the failures are of order five.
    let (a, b, c) = rk4();
    let r = verify_exact(&a, &b, &c, None, 6).unwrap();
    assert!(!r.failing.is_empty());
    assert!(r.failing.iter().all(|t| t.order() == 5));
    // A search that runs to its limit reports no failure.
    let r = verify_exact(&a, &b, &c, None, 4).unwrap();
    assert!(r.failing.is_empty());
}
