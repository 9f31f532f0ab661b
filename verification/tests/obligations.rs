use fedramp_aion::canon::canonicalize;
use fedramp_aion::json::Doc;
use fedramp_aion::obligations::{delta, select, Profile};
use serde_json::Value;

fn value(text: &str) -> Value {
    serde_json::from_str(text).unwrap()
}

fn json(value: &Value) -> Doc {
    canonicalize(value.to_string().as_bytes()).unwrap()
}

fn rules() -> Value {
    value(
        r#"{"FRR": {
        "CCM": {
            "info": {"subsets": {
                "OCR": {"applicability": {"affects": ["Providers"], "classes": ["B","C","D"],
                                          "paths": ["Program","Agency"], "types": ["20x","Rev5"]}},
                "AGM": {"applicability": {"affects": ["Agencies"], "classes": ["B","C","D"],
                                          "paths": ["Agency"], "types": ["Rev5"]}}}},
            "data": {"all": {
                "OCR": {"CCM-OCR-AVL": {"affects": ["Providers"], "force": "MUST",
                                        "statement": "Report availability.",
                                        "schema": {"name": "Ongoing Certification Report"}}},
                "AGM": {"CCM-AGM-ONE": {"affects": ["Agencies"], "force": "SHOULD",
                                        "statement": "Agencies should review."}}}}},
        "CPO": {
            "info": {"subsets": {}},
            "data": {"rev5": {"CSF": {"CPO-CSF-CPM": {
                "affects": ["Providers"], "name": "Certification Package Maintenance",
                "varies_by_class": {
                    "b": {"force": "MUST", "statement": "Class B maintains yearly.",
                          "timeframe_num": 1, "timeframe_type": "years"},
                    "c": {"force": "SHOULD", "statement": "Class C should maintain."}}}}}}}
    }}"#,
    )
}

fn provider(class: &str, cert_type: &str) -> Profile {
    Profile {
        role: "Providers".into(),
        class: Some(class.into()),
        cert_type: Some(cert_type.into()),
        path: None,
    }
}

fn ids(profile: &Profile) -> Vec<String> {
    select(&json(&rules()), profile)
        .into_iter()
        .map(|o| o.id)
        .collect()
}

#[test]
fn selects_only_rules_affecting_the_role() {
    let ids = ids(&provider("B", "Rev5"));
    assert!(ids.contains(&"CCM-OCR-AVL".to_string()));
    assert!(
        !ids.contains(&"CCM-AGM-ONE".to_string()),
        "agency rule leaked"
    );
}

#[test]
fn type_specific_rules_are_scoped_by_their_data_path() {
    let rev5 = ids(&provider("B", "Rev5"));
    let twentyx = ids(&provider("B", "20x"));
    assert!(rev5.contains(&"CPO-CSF-CPM".to_string()));
    assert!(
        !twentyx.contains(&"CPO-CSF-CPM".to_string()),
        "rev5-only rule applied to a 20x profile"
    );
    assert!(
        twentyx.contains(&"CCM-OCR-AVL".to_string()),
        "`all` rule dropped"
    );
}

#[test]
fn per_class_variant_is_resolved() {
    let b = select(&json(&rules()), &provider("B", "Rev5"));
    let cpm = b.iter().find(|o| o.id == "CPO-CSF-CPM").unwrap();
    assert_eq!(cpm.force, "MUST");
    assert_eq!(cpm.timeframe.as_deref(), Some("1 years"));
    assert!(cpm.is_binding());

    let c = select(&json(&rules()), &provider("C", "Rev5"));
    let cpm = c.iter().find(|o| o.id == "CPO-CSF-CPM").unwrap();
    assert_eq!(cpm.force, "SHOULD");
    assert!(!cpm.is_binding());
}

#[test]
fn a_class_absent_from_variants_has_no_obligation() {
    let d = select(&json(&rules()), &provider("D", "Rev5"));
    assert!(
        !d.iter().any(|o| o.id == "CPO-CSF-CPM"),
        "class D has no variant and must not inherit one"
    );
}

#[test]
fn omitting_class_reports_the_strictest_variant() {
    let profile = Profile {
        role: "Providers".into(),
        class: None,
        cert_type: Some("Rev5".into()),
        path: None,
    };
    let cpm = select(&json(&rules()), &profile)
        .into_iter()
        .find(|o| o.id == "CPO-CSF-CPM")
        .unwrap();
    assert_eq!(cpm.force, "MUST");
    assert_eq!(cpm.class.as_deref(), Some("B"));
}

#[test]
fn subset_path_constraint_is_honored() {
    let program = Profile {
        role: "Agencies".into(),
        class: Some("B".into()),
        cert_type: None,
        path: Some("Program".into()),
    };
    assert!(
        !select(&json(&rules()), &program)
            .iter()
            .any(|o| o.id == "CCM-AGM-ONE"),
        "AGM is Agency-path only"
    );
    let agency = Profile {
        path: Some("Agency".into()),
        ..program
    };
    assert!(select(&json(&rules()), &agency)
        .iter()
        .any(|o| o.id == "CCM-AGM-ONE"));
}

#[test]
fn schema_bound_rules_carry_their_artifact() {
    let avl = select(&json(&rules()), &provider("B", "Rev5"))
        .into_iter()
        .find(|o| o.id == "CCM-OCR-AVL")
        .unwrap();
    assert_eq!(avl.schema.as_deref(), Some("Ongoing Certification Report"));
}

#[test]
fn delta_reports_a_binding_shift_for_the_affected_class_only() {
    let mut after = rules();
    after["FRR"]["CPO"]["data"]["rev5"]["CSF"]["CPO-CSF-CPM"]["varies_by_class"]["c"]["force"] =
        value("\"MUST\"");

    let class_c = delta(&json(&rules()), &json(&after), &provider("C", "Rev5"));
    assert_eq!(class_c.binding_shifts().len(), 1);
    assert_eq!(class_c.binding_shifts()[0].from, "SHOULD");

    let class_b = delta(&json(&rules()), &json(&after), &provider("B", "Rev5"));
    assert!(class_b.is_empty(), "class B was untouched");
}

#[test]
fn delta_reports_added_and_removed_obligations() {
    let mut after = rules();
    after["FRR"]["CCM"]["data"]["all"]["OCR"]["CCM-OCR-NEW"] =
        value(r#"{"affects": ["Providers"], "force": "MUST", "statement": "New duty."}"#);
    after["FRR"]["CCM"]["data"]["all"]["OCR"]
        .as_object_mut()
        .unwrap()
        .remove("CCM-OCR-AVL");

    let d = delta(&json(&rules()), &json(&after), &provider("B", "Rev5"));
    assert_eq!(d.added.len(), 1);
    assert_eq!(d.added[0].id, "CCM-OCR-NEW");
    assert_eq!(d.removed.len(), 1);
    assert_eq!(d.removed[0].id, "CCM-OCR-AVL");
}

#[test]
fn obligations_come_by_rule_id() {
    let profile = Profile::default();
    let mut sorted = ids(&profile);
    sorted.sort();
    assert_eq!(ids(&profile), sorted);
    assert_eq!(ids(&profile), vec!["CCM-OCR-AVL", "CPO-CSF-CPM"]);
}

#[test]
fn labels_name_what_is_given() {
    assert_eq!(Profile::default().label(), "Providers");
    assert_eq!(provider("B", "Rev5").label(), "Providers, class B, type Rev5");
    let agency = Profile {
        path: Some("Agency".into()),
        ..provider("B", "Rev5")
    };
    assert_eq!(agency.label(), "Providers, class B, type Rev5, path Agency");
}

#[test]
fn of_equally_strict_variants_the_last_is_reported() {
    let rules = json(&value(
        r#"{"FRR": {"X": {"data": {"all": {"S": {"R": {"varies_by_class": {
            "a": {"force": "MUST NOT"}, "b": {"force": "MUST"}, "c": {}}}}}}}}}"#,
    ));
    let found = select(&rules, &Profile::default());
    assert_eq!(found[0].class.as_deref(), Some("B"));
    assert_eq!(found[0].force, "MUST");
}

#[test]
fn a_ruleset_compared_with_itself_shifts_nothing() {
    let rules = json(&rules());
    assert!(delta(&rules, &rules, &provider("B", "Rev5")).is_empty());
}

#[test]
fn what_a_rule_leaves_out_is_marked() {
    let rules = json(&value(r#"{"FRR": {"X": {"data": {"20x": {"S": {"R": {}}}}}}}"#));
    let found = select(&rules, &Profile::default());
    assert_eq!(found[0].force, "UNSPECIFIED");
    assert_eq!(found[0].statement, "");
    assert_eq!(found[0].cert_type, "20x");
    assert_eq!(found[0].name, None);
}

#[test]
fn exchanging_two_rulesets_reads_the_delta_the_other_way_round() {
    let mut after = rules();
    after["FRR"]["CPO"]["data"]["rev5"]["CSF"]["CPO-CSF-CPM"]["varies_by_class"]["b"]["force"] =
        value("\"SHOULD\"");
    after["FRR"]["CCM"]["data"]["all"]["OCR"] =
        value(r#"{"CCM-OCR-NEW": {"affects": ["Providers"], "force": "MAY"}}"#);
    let profile = provider("B", "Rev5");
    let there = delta(&json(&rules()), &json(&after), &profile);
    let back = delta(&json(&after), &json(&rules()), &profile);
    assert_eq!(there.added.len(), 1);
    assert_eq!(there.added[0].id, "CCM-OCR-NEW");
    assert_eq!(back.removed[0].id, there.added[0].id);
    assert_eq!(back.added[0].id, there.removed[0].id);
    assert_eq!(there.changed.len(), 1);
    assert_eq!(
        (there.changed[0].from.as_str(), there.changed[0].to.as_str()),
        ("MUST", "SHOULD")
    );
    assert_eq!(
        (back.changed[0].from.as_str(), back.changed[0].to.as_str()),
        ("SHOULD", "MUST")
    );
}

#[test]
fn an_open_dimension_hides_no_obligation() {
    let open = Profile {
        role: "Providers".into(),
        class: None,
        cert_type: None,
        path: None,
    };
    let owed = select(&json(&rules()), &open);
    for class in ["B", "C", "D"] {
        for obligation in select(&json(&rules()), &provider(class, "Rev5")) {
            let same = owed.iter().find(|o| o.id == obligation.id).unwrap();
            assert!(same.is_binding() || !obligation.is_binding());
        }
    }
}

#[test]
fn only_must_and_must_not_are_binding() {
    let force = |text: &str| {
        let rules = format!(
            r#"{{"FRR": {{"X": {{"data": {{"all": {{"S": {{"R-1": {{"force": "{text}"}}}}}}}}}}}}}}"#
        );
        select(&json(&value(&rules)), &provider("B", "Rev5")).remove(0)
    };
    assert!(force("MUST").is_binding() && force("MUST NOT").is_binding());
    assert!(!force("MUSTER").is_binding() && !force("MUST, OR").is_binding());
    assert!(!force("SHOULD").is_binding() && !force("must").is_binding());
}

#[test]
fn a_shift_between_look_alikes_is_no_binding_shift() {
    let at = |text: &str| {
        json(&value(&format!(
            r#"{{"FRR": {{"X": {{"data": {{"all": {{"S": {{"R-1": {{"force": "{text}"}}}}}}}}}}}}}}"#
        )))
    };
    let profile = provider("B", "Rev5");
    assert_eq!(delta(&at("MUST"), &at("MUSTER"), &profile).binding_shifts().len(), 1);
    assert!(delta(&at("SHOULD"), &at("MUSTER"), &profile).binding_shifts().is_empty());
    assert!(delta(&at("MUST"), &at("MUST NOT"), &profile).binding_shifts().is_empty());
}
