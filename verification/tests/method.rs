use solvers_core::method::additive::{check_explicit_half, check_pair_stages};
use solvers_core::method::library::MethodLibrary;
use solvers_core::method::lmm::{check_lmm_shape, Normalization};
use solvers_core::method::rk::{check_tableau_shape, stage_coupling, Structure};
use solvers_core::method::rosenbrock::check_rosenbrock_shape;
use solvers_core::method::{check_blocks, invalid, MethodClass, MethodError, Reference};

fn tableau_error(a_rows: &[usize], b: usize, c: Option<usize>, be: Option<usize>, dense: Option<usize>) -> String {
    check_tableau_shape(&a_rows.to_vec(), b, c, be, dense).err().unwrap().0
}

#[test]
fn a_well_shaped_tableau_passes() {
    assert!(check_tableau_shape(&vec![0, 1, 2, 3], 4, Some(4), Some(4), Some(4)).is_ok());
    assert!(check_tableau_shape(&vec![0, 1], 2, None, None, None).is_ok());
}

#[test]
fn each_tableau_shape_error_is_reported_in_turn() {
    assert_eq!(tableau_error(&[], 0, None, None, None), "tableau has no stages");
    assert_eq!(tableau_error(&[0, 1], 3, None, None, None), "matrix a has 2 rows but b has 3 entries");
    assert_eq!(tableau_error(&[0, 4, 5], 3, None, None, None), "row 1 of a has more than 3 entries");
    assert_eq!(tableau_error(&[0, 1, 2], 3, Some(2), Some(1), None), "c has 2 entries, expected 3");
    assert_eq!(tableau_error(&[0, 1, 2], 3, None, Some(12), None), "b_embedded has 12 entries, expected 3");
    assert_eq!(tableau_error(&[0, 1, 2], 3, None, None, Some(0)), "dense_output has 0 rows, expected 3");
}

#[test]
fn the_structure_follows_the_nonzero_pattern() {
    // Classical RK4: strictly lower triangular.
    let rk4 = vec![vec![], vec![true], vec![false, true], vec![false, false, true]];
    let c = stage_coupling(&rk4);
    assert_eq!(c.structure, Structure::Explicit);
    assert!(!c.explicit_first_stage);
    // An ESDIRK: explicit first stage, nonzero diagonal below.
    let esdirk = vec![vec![false, false], vec![true, true]];
    let c = stage_coupling(&esdirk);
    assert_eq!(c.structure, Structure::DiagonallyImplicit);
    assert!(c.explicit_first_stage);
    // Backward Euler: one implicit stage.
    let c = stage_coupling(&vec![vec![true]]);
    assert_eq!(c.structure, Structure::DiagonallyImplicit);
    assert!(!c.explicit_first_stage);
    // Radau IIA: full.
    let radau = vec![vec![true, true], vec![true, true]];
    assert_eq!(stage_coupling(&radau).structure, Structure::FullyImplicit);
    // Lobatto IIIA: zero first row, full below.
    let lobatto = vec![vec![false, false], vec![true, true, false]];
    let c = stage_coupling(&lobatto);
    assert_eq!(c.structure, Structure::DiagonallyImplicit);
    assert!(c.explicit_first_stage);
    let lobatto3 = vec![vec![], vec![true, true, true], vec![true, true, true]];
    let c = stage_coupling(&lobatto3);
    assert_eq!(c.structure, Structure::FullyImplicit);
    assert!(c.explicit_first_stage);
}

#[test]
fn rosenbrock_shapes_are_checked_row_by_row() {
    let alpha = vec![vec![], vec![true]];
    let gamma = vec![vec![true], vec![true, true]];
    assert!(check_rosenbrock_shape(&alpha, &gamma, 2, Some(2)).is_ok());
    let err = |a: &Vec<Vec<bool>>, g: &Vec<Vec<bool>>, b: usize, be: Option<usize>| {
        check_rosenbrock_shape(a, g, b, be).err().unwrap().0
    };
    assert_eq!(err(&vec![], &vec![], 0, None), "tableau has no stages");
    assert_eq!(err(&vec![vec![]], &gamma, 2, None), "alpha has 1 rows but b has 2 entries");
    assert_eq!(err(&vec![vec![], vec![true, false, false]], &gamma, 2, None), "row 1 of alpha has more than 2 entries");
    assert_eq!(
        err(&vec![vec![], vec![true, true]], &gamma, 2, None),
        "alpha[1][1] is nonzero, which the structure does not allow"
    );
    assert_eq!(
        err(&alpha, &vec![vec![true, true], vec![true, true]], 2, None),
        "gamma[0][1] is nonzero, which the structure does not allow"
    );
    assert_eq!(err(&alpha, &vec![vec![true]], 2, None), "gamma has 1 rows but b has 2 entries");
    assert_eq!(
        err(&alpha, &vec![vec![true], vec![true]], 2, None),
        "gamma[1][1] is zero, so stage 1 has no linear system to solve"
    );
    assert_eq!(err(&alpha, &gamma, 2, Some(3)), "b_embedded has 3 entries, expected 2");
}

#[test]
fn multistep_shapes() {
    assert!(check_lmm_shape(2, 3, 3).is_ok());
    assert_eq!(check_lmm_shape(0, 1, 1).err().unwrap().0, "a multistep method needs at least one step");
    assert_eq!(
        check_lmm_shape(3, 4, 3).err().unwrap().0,
        "alpha and beta must have 4 entries for a 3-step method"
    );
    assert_eq!(Normalization::default(), Normalization::Alpha0);
}

#[test]
fn additive_pairs() {
    assert!(check_pair_stages(4, 4).is_ok());
    assert_eq!(
        check_pair_stages(3, 4).err().unwrap().0,
        "the halves have 3 and 4 stages, and an additive pair shares its stages"
    );
    assert!(check_explicit_half(Structure::Explicit).is_ok());
    assert_eq!(
        check_explicit_half(Structure::DiagonallyImplicit).err().unwrap().0,
        "the explicit half is not explicit"
    );
}

#[test]
fn the_class_must_match_the_block() {
    assert!(check_blocks("rk4", MethodClass::RungeKutta, true, false, false).is_ok());
    assert!(check_blocks("bdf2", MethodClass::LinearMultistep, false, true, false).is_ok());
    assert!(check_blocks("ros2", MethodClass::Rosenbrock, false, false, true).is_ok());
    match check_blocks("bdf2", MethodClass::RungeKutta, false, true, false) {
        Err(MethodError::Invalid(m)) => assert_eq!(m, "bdf2: the class and the coefficient block do not match"),
        _ => panic!("expected a refusal"),
    }
    assert!(check_blocks("x", MethodClass::Rosenbrock, true, false, true).is_err());
    match invalid("rk4", "tableau has no stages") {
        MethodError::Invalid(m) => assert_eq!(m, "rk4: tableau has no stages"),
        _ => panic!("expected an invalid method"),
    }
}

#[test]
fn methods_are_found_by_id_and_alias_in_any_case() {
    let mut library: MethodLibrary<u32> = MethodLibrary::new();
    assert!(library.is_empty());
    library.insert("rk4", &vec!["Classic".to_string(), "RK44".to_string()], 1).unwrap();
    library.insert("Heun", &vec![], 2).unwrap();
    assert_eq!(library.len(), 2);
    assert_eq!(library.get("RK4"), Some(&1));
    assert_eq!(library.get("classic"), Some(&1));
    assert_eq!(library.get("rk44"), Some(&1));
    assert_eq!(library.get("heun"), Some(&2));
    assert_eq!(library.get("HEUN"), Some(&2));
    assert_eq!(library.get("euler"), None);
    assert_eq!(library.ids(), vec!["rk4", "Heun"]);
    assert_eq!(library.methods(), &vec![1, 2]);
}

#[test]
fn a_taken_key_is_refused_and_nothing_changes() {
    let mut library: MethodLibrary<u32> = MethodLibrary::new();
    library.insert("rk4", &vec!["classic".to_string()], 1).unwrap();
    match library.insert("other", &vec!["x".to_string(), "CLASSIC".to_string()], 2) {
        Err(MethodError::Invalid(m)) => assert_eq!(m, "duplicate method key \"classic\", already used by rk4"),
        _ => panic!("expected a refusal"),
    }
    assert_eq!(library.len(), 1);
    assert_eq!(library.get("x"), None);
    assert_eq!(library.get("other"), None);
}

#[test]
fn links_prefer_the_doi() {
    let mut r = Reference::default();
    assert_eq!(r.link(), None);
    r.url = Some("https://example.org/paper".to_string());
    assert_eq!(r.link(), Some("https://example.org/paper".to_string()));
    r.doi = Some("10.1007/BF01385700".to_string());
    assert_eq!(r.link(), Some("https://doi.org/10.1007/BF01385700".to_string()));
    r.doi = Some("https://doi.org/10.1137/1.9780898719994".to_string());
    assert_eq!(r.link(), Some("https://doi.org/10.1137/1.9780898719994".to_string()));
}
