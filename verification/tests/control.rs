use solvers_core::control::ControllerPreset;

#[test]
fn every_preset_resolves_by_name() {
    for preset in ControllerPreset::all() {
        assert_eq!(ControllerPreset::from_name(preset.name()), Some(*preset));
    }
}

#[test]
fn names_are_found_whatever_their_spelling() {
    assert_eq!(ControllerPreset::from_name("  PI-4.2 "), Some(ControllerPreset::Pi4020));
    assert_eq!(ControllerPreset::from_name("Standard"), Some(ControllerPreset::I));
    assert_eq!(ControllerPreset::from_name("pi_hairer"), Some(ControllerPreset::PiHairer));
    assert_eq!(ControllerPreset::from_name("H_312-b"), Some(ControllerPreset::H312b));
    assert_eq!(ControllerPreset::from_name("custom"), Some(ControllerPreset::Custom));
    assert_eq!(ControllerPreset::from_name("predictive"), Some(ControllerPreset::Gustafsson));
    assert_eq!(ControllerPreset::from_name("pi 42"), None);
    assert_eq!(ControllerPreset::from_name(""), None);
}

#[test]
fn custom_resolves_by_its_own_name_but_is_not_listed() {
    assert_eq!(ControllerPreset::from_name(ControllerPreset::Custom.name()), Some(ControllerPreset::Custom));
    assert_eq!(ControllerPreset::all().len(), 10);
    assert!(!ControllerPreset::all().contains(&ControllerPreset::Custom));
}

#[test]
fn preset_names_ignore_case_spaces_and_separators() {
    assert_eq!(ControllerPreset::from_name(" PI-4.2 "), Some(ControllerPreset::Pi4020));
    assert_eq!(ControllerPreset::from_name("Hairer"), Some(ControllerPreset::PiHairer));
    assert_eq!(ControllerPreset::from_name("predictive"), Some(ControllerPreset::Gustafsson));
    assert_eq!(ControllerPreset::from_name(ControllerPreset::Custom.name()), Some(ControllerPreset::Custom));
    assert_eq!(ControllerPreset::from_name("radau"), None);
}

#[test]
fn separators_and_case_inside_a_preset_name_do_not_matter() {
    assert_eq!(ControllerPreset::from_name("Gus-taf_sson"), Some(ControllerPreset::Gustafsson));
    assert_eq!(ControllerPreset::from_name("H312.B"), Some(ControllerPreset::H312b));
    assert_eq!(ControllerPreset::from_name("\tpid\n"), Some(ControllerPreset::Pid));
    // White space inside a name is kept, so it no longer matches.
    assert_eq!(ControllerPreset::from_name("p id"), None);
}
