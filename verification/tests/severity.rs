use fedramp_aion::severity::Severity;

#[test]
fn ordering_lets_max_pick_the_loudest_source() {
    let observed = [Severity::Routine, Severity::Major, Severity::Metadata];
    assert_eq!(observed.into_iter().max(), Some(Severity::Major));
}

#[test]
fn gate_threshold_comparisons_hold() {
    assert!(Severity::Routine > Severity::Unchanged);
    assert!(Severity::Minor < Severity::Major);
    assert!(Severity::Metadata > Severity::Unchanged);
}

#[test]
fn parses_from_cli_text() {
    assert_eq!("Major".parse::<Severity>().unwrap(), Severity::Major);
    assert!("loud".parse::<Severity>().is_err());
}

#[test]
fn labels_parse_back() {
    for severity in [
        Severity::Unchanged,
        Severity::Metadata,
        Severity::Routine,
        Severity::Minor,
        Severity::Major,
    ] {
        assert_eq!(severity.label().parse::<Severity>().unwrap(), severity);
    }
    assert_eq!(Severity::default().label(), "none");
    assert_eq!(
        "LOUD".parse::<Severity>().unwrap_err(),
        "unknown severity `loud`"
    );
}

#[test]
fn headlines_lead_with_what_moved() {
    assert_eq!(Severity::Major.headline(), "RULES CHANGED");
    assert_eq!(Severity::Unchanged.headline(), "no change");
}

#[test]
fn a_word_that_names_no_severity_is_told() {
    assert_eq!("MAJOR".parse::<Severity>(), Ok(Severity::Major));
    assert_eq!(
        "Loud".parse::<Severity>(),
        Err("unknown severity `loud`".to_string())
    );
}
