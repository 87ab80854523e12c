use solvers_core::analysis::agreement::{lmm_discrepancies, rk_discrepancies, stage_cost, Claims, RkFindings};
use solvers_core::analysis::convergence::work;
use solvers_core::analysis::order::{trees_of_order, Tree};
use solvers_core::analysis::tags::{tags, MethodFacts, StructureFacts, Wedge};
use solvers_core::method::rk::Structure;
use solvers_core::method::Reference;
use solvers_core::problem::Stats;
use solvers_core::text::decimal_string;

fn no_claims() -> Claims {
    Claims {
        order: None,
        embedded_order: None,
        a_stable: None,
        l_stable: None,
        stiffly_accurate: None,
        stage_order: None,
    }
}

fn radau_findings() -> RkFindings {
    RkFindings {
        order: 5,
        embedded_order: Some(3),
        a_stable: true,
        l_stable: true,
        stiffly_accurate: true,
        stage_order: 3,
        consistent_abscissae: true,
    }
}

#[test]
fn agreeing_claims_give_no_notes() {
    let claims = Claims {
        order: Some(5),
        embedded_order: Some(3),
        a_stable: Some(true),
        l_stable: Some(true),
        stiffly_accurate: Some(true),
        stage_order: Some(3),
    };
    assert!(rk_discrepancies(&claims, &radau_findings()).is_empty());
    assert!(rk_discrepancies(&no_claims(), &radau_findings()).is_empty());
}

#[test]
fn every_disagreement_is_noted_in_order() {
    let claims = Claims {
        order: Some(4),
        embedded_order: Some(2),
        a_stable: Some(false),
        l_stable: Some(false),
        stiffly_accurate: Some(false),
        stage_order: Some(2),
    };
    let mut found = radau_findings();
    found.consistent_abscissae = false;
    assert_eq!(
        rk_discrepancies(&claims, &found),
        vec![
            "file claims order 4, the tableau satisfies order 5",
            "file claims embedded order 2, the tableau satisfies 3",
            "file claims a_stable = false, computed true",
            "file claims l_stable = false, computed true",
            "file claims stiffly_accurate = false, computed true",
            "file claims stage order 2, computed 3",
            "c is not the row sum of A",
        ]
    );
    let mut without_embedded = radau_findings();
    without_embedded.embedded_order = None;
    let only_embedded = Claims { embedded_order: Some(9), ..no_claims() };
    assert!(rk_discrepancies(&only_embedded, &without_embedded).is_empty());
}

#[test]
fn multistep_notes() {
    let claims = Claims { order: Some(3), a_stable: Some(true), ..no_claims() };
    assert_eq!(
        lmm_discrepancies(&claims, None, 2, false),
        vec!["file claims order 3, the coefficients give order 2", "file claims a_stable = true, computed false"]
    );
    assert_eq!(
        lmm_discrepancies(&claims, Some("singular coefficient system"), 3, true),
        vec![
            "coefficients could not be determined: singular coefficient system",
            "file claims order 3, the coefficients give order 0",
        ]
    );
    assert!(lmm_discrepancies(&claims, None, 3, true).is_empty());
}

#[test]
fn step_cost() {
    // Dormand-Prince: seven explicit stages, first same as last, so one
    // evaluation is saved every step.
    assert_eq!(stage_cost(7, true, 7), 6);
    // The three stage method with c = [0, 1/2, 1] whose last row is b.
    assert_eq!(stage_cost(3, true, 3), 2);
    // RK4.
    assert_eq!(stage_cost(4, false, 4), 4);
    // An ESDIRK with one explicit stage.
    assert_eq!(stage_cost(4, false, 1), 4);
}

#[test]
fn symmetries_of_the_trees_of_order_four() {
    let sigma = |t: &Tree| {
        let s = t.symmetry().unwrap();
        assert_eq!(s.denominator(), 1);
        s.numerator()
    };
    let trees = trees_of_order(4);
    let by_text: Vec<(String, i128)> = trees.iter().map(|t| (t.to_string_compact(), sigma(t))).collect();
    assert_eq!(
        by_text,
        vec![
            ("[t,t,t]".to_string(), 6),
            ("[t,[t]]".to_string(), 1),
            ("[[[t]]]".to_string(), 1),
            ("[[t,t]]".to_string(), 2),
        ]
    );
    assert_eq!(sigma(&Tree::leaf()), 1);
    // A root over two copies of [t,t]: 2! * 2 * 2.
    let cherry = Tree { children: vec![Tree::leaf(), Tree::leaf()] };
    let double = Tree { children: vec![cherry.clone(), cherry.clone()] };
    assert_eq!(sigma(&double), 8);
}

#[test]
fn order_n_trees_account_for_all_labellings() {
    // A tree has n!/(sigma gamma) increasing labellings, and the increasing
    // trees on n nodes number (n-1)!.
    for n in 1..=6usize {
        let factorial: i128 = (1..=n as i128).product();
        let total: i128 = trees_of_order(n)
            .iter()
            .map(|t| {
                let s = t.symmetry().unwrap().numerator();
                let g = t.density().unwrap().numerator();
                factorial / (s * g)
            })
            .sum();
        let expected: i128 = (1..n as i128).product();
        assert_eq!(total, expected, "order {n}");
    }
}

#[test]
fn decimal_strings() {
    assert_eq!(decimal_string(0), "0");
    assert_eq!(decimal_string(7), "7");
    assert_eq!(decimal_string(10), "10");
    assert_eq!(decimal_string(1234567890), "1234567890");
    assert_eq!(decimal_string(u64::MAX), u64::MAX.to_string());
}

#[test]
fn work_is_the_right_hand_side_evaluations() {
    let mut stats = Stats::default();
    stats.steps = 5;
    stats.rhs_evals = 10;
    stats.jacobian_evals = 2;
    stats.lu_decompositions = 3;
    stats.linear_solves = 4;
    assert_eq!(work(&stats), 10);
    stats.reset();
    assert_eq!(stats, Stats::default());
}

#[test]
fn tags_of_an_explicit_pair() {
    let facts = MethodFacts {
        structure: StructureFacts::RungeKutta {
            structure: Structure::Explicit,
            singly_diagonal: false,
            explicit_first_stage: false,
            fsal: true,
            stiffly_accurate: false,
            embedded: true,
        },
        l_stable: false,
        a_stable: false,
        wedge: Wedge::Unknown,
        algebraically_stable: None,
        strong_stability_preserving: false,
        dissipation_order: None,
        dispersion_order: None,
        symplectic: None,
        symmetric: None,
        computed_order: 5,
        adaptive: true,
        exact_arithmetic: true,
        references: vec![Reference { doi: Some("10.1016/0771-050X(80)90013-3".to_string()), ..Reference::default() }],
        extra: vec!["classic".to_string()],
    };
    let got: Vec<(String, String)> = tags(&facts).into_iter().map(|t| (t.group.to_string(), t.name)).collect();
    let expected: Vec<(String, String)> = [
        ("structure", "explicit"),
        ("structure", "FSAL"),
        ("control", "embedded pair"),
        ("stability", "conditionally stable"),
        ("use", "non stiff problems"),
        ("order", "order 5 to 6"),
        ("control", "adaptive"),
        ("provenance", "exact coefficients"),
        ("provenance", "published source"),
        ("other", "classic"),
    ]
    .iter()
    .map(|(g, n)| (g.to_string(), n.to_string()))
    .collect();
    assert_eq!(got, expected);
}
