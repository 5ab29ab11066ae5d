use sabm_simulation::persona::{parse_persona, Persona};

#[test]
fn persona_parse_roundtrip() {
    assert_eq!(parse_persona("active").unwrap(), Persona::Active);
    assert_eq!(parse_persona("Aggressive").unwrap(), Persona::Aggressive);
    assert_eq!(parse_persona("none").unwrap(), Persona::Neutral);
    assert!(parse_persona("bogus").is_err());
    assert_eq!(Persona::Active.label(), "active");
}

#[test]
fn every_label_parses_back() {
    for p in [Persona::Active, Persona::Aggressive, Persona::Neutral] {
        assert_eq!(parse_persona(p.label()).unwrap(), p);
    }
}

#[test]
fn persona_aliases_padding_and_case() {
    assert_eq!(parse_persona("  AGGRO\t").unwrap(), Persona::Aggressive);
    assert_eq!(parse_persona("Neutral").unwrap(), Persona::Neutral);
    assert_eq!(parse_persona("\u{3000}off\n").unwrap(), Persona::Neutral);
    assert_eq!(parse_persona(" ACTIVE ").unwrap(), Persona::Active);
}

#[test]
fn unknown_persona_error_names_the_input() {
    let e = parse_persona(" bogus ").unwrap_err();
    assert_eq!(e, "不正なペルソナ: \" bogus \" (active / aggressive / none)");
    assert!(parse_persona("").is_err());
    assert!(parse_persona("act ive").is_err());
}

#[test]
fn labels_and_directives() {
    assert_eq!(Persona::Aggressive.label(), "aggressive");
    assert_eq!(Persona::Neutral.label(), "none");
    assert_eq!(Persona::Neutral.directive(), "");
    assert!(Persona::Active.directive().starts_with("You are an active, profit-seeking manager."));
    assert!(Persona::Aggressive.directive().contains("start a price war"));
}
