use solvers_core::nonlinear::SolverKind;

#[test]
fn names_round_trip() {
    for kind in SolverKind::all() {
        assert_eq!(SolverKind::from_name(kind.name()), Some(*kind));
    }
}

#[test]
fn solver_aliases_are_found() {
    assert_eq!(SolverKind::from_name("Picard"), Some(SolverKind::FixedPoint));
    assert_eq!(SolverKind::from_name(" quasi newton "), Some(SolverKind::ModifiedNewton));
    assert_eq!(SolverKind::from_name("Full-Newton"), Some(SolverKind::Newton));
    assert_eq!(SolverKind::from_name("newton.anderson"), None);
    assert_eq!(SolverKind::from_name("broyden"), None);
}

#[test]
fn only_the_newton_family_needs_a_jacobian() {
    assert!(!SolverKind::FixedPoint.needs_jacobian());
    assert!(!SolverKind::Anderson.needs_jacobian());
    assert!(SolverKind::Newton.needs_jacobian());
    assert!(SolverKind::ModifiedNewton.needs_jacobian());
    assert!(SolverKind::NewtonAnderson.needs_jacobian());
}

#[test]
fn solver_names_ignore_case_spaces_and_separators() {
    assert_eq!(SolverKind::from_name("Picard"), Some(SolverKind::FixedPoint));
    assert_eq!(SolverKind::from_name("simplified newton"), Some(SolverKind::ModifiedNewton));
    assert_eq!(SolverKind::from_name("full-newton"), Some(SolverKind::Newton));
    assert_eq!(SolverKind::from_name("broyden"), None);
    assert_eq!(SolverKind::all().len(), 5);
}
