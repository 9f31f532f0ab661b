use fedramp_aion::canon::canonicalize;
use fedramp_aion::diff::oscal::{diff, flatten, normalise_id, referenced_controls};
use fedramp_aion::json::Doc;
use fedramp_aion::severity::Severity;
use serde_json::Value;

fn value(text: &str) -> Value {
    serde_json::from_str(text).unwrap()
}

fn json(value: &Value) -> Doc {
    canonicalize(value.to_string().as_bytes()).unwrap()
}

fn catalog(version: &str, ac20_title: &str) -> Value {
    let mut doc = value(
        r#"{"catalog": {
        "uuid": "doc-uuid",
        "metadata": {"version": "", "last-modified": "2026-05-11T16:01:09.00000-00:00"},
        "groups": [{
            "id": "ac", "title": "Access Control",
            "controls": [
                {"id": "ac-20", "title": "",
                 "controls": [{"id": "ac-20.1", "title": "Limits on Authorized Use"}]},
                {"id": "pm-31", "title": "Continuous Monitoring Strategy"}
            ]}]}}"#,
    );
    doc["catalog"]["metadata"]["version"] = Value::from(version);
    doc["catalog"]["groups"][0]["controls"][0]["title"] = Value::from(ac20_title);
    doc
}

fn fedramp_rules() -> Doc {
    json(&value(
        r#"{
        "CTL": {"AC": {"AC-20": {"guidance": ["g"]}, "AC-06-01": {"parameters": []}}},
        "KSI": {"CED": {"indicators": {"KSI-CED-RAT": {"controls": ["cp-3", "ac-20.1"]}}}}
    }"#,
    ))
}

#[test]
fn ids_normalise_from_both_fedramp_forms() {
    assert_eq!(normalise_id("AC-06-01"), "ac-6.1");
    assert_eq!(normalise_id("AC-20"), "ac-20");
    assert_eq!(normalise_id("ac-20.1"), "ac-20.1");
    assert_eq!(normalise_id("AU-10"), "au-10");
}

#[test]
fn normalising_twice_changes_nothing() {
    for id in ["AC-06-01", "AC-00-00", "PLAIN", "-0-0-0", "ac-6.1", ""] {
        let once = normalise_id(id);
        assert_eq!(normalise_id(&once), once);
    }
}

#[test]
fn referenced_controls_span_ctl_and_ksi() {
    let referenced = referenced_controls(&fedramp_rules());
    assert!(referenced.contains_key("ac-20"));
    assert!(referenced.contains_key("ac-6.1"));
    assert!(referenced.contains_key("ac-20.1"), "KSI references must count");
    assert!(referenced.contains_key("cp-3"));
}

#[test]
fn flatten_includes_enhancements() {
    let controls = flatten(&json(&catalog("5.2.0", "Use of External Systems")));
    assert!(controls.contains_key("ac-20"));
    assert!(controls.contains_key("ac-20.1"), "enhancement was dropped");
    assert_eq!(controls.len(), 3);
}

#[test]
fn an_unchanged_republish_is_not_a_change() {
    let referenced = referenced_controls(&fedramp_rules());
    let delta = diff(
        &json(&catalog("5.2.0", "Use of External Systems")),
        &json(&catalog("5.2.0", "Use of External Systems")),
        &referenced,
    );
    assert!(!delta.changed);
    assert_eq!(delta.severity, Severity::Unchanged);
}

/// A control FedRAMP points at is major; one it ignores is routine.
#[test]
fn severity_depends_on_whether_fedramp_references_the_control() {
    let referenced = referenced_controls(&fedramp_rules());
    let before = catalog("5.2.0", "Use of External Systems");

    let mut after = before.clone();
    after["catalog"]["groups"][0]["controls"][0]["title"] =
        value("\"Use of External Systems v2\"");
    let delta = diff(&json(&before), &json(&after), &referenced);
    assert_eq!(delta.severity, Severity::Major);
    assert_eq!(delta.counts.get("controls_referenced_by_fedramp"), Some(&1));

    let mut after = before.clone();
    after["catalog"]["groups"][0]["controls"][1]["title"] = value("\"Renamed, unreferenced\"");
    let delta = diff(&json(&before), &json(&after), &referenced);
    assert_eq!(delta.severity, Severity::Routine);
    assert_eq!(delta.counts.get("controls_referenced_by_fedramp"), Some(&0));
}

#[test]
fn a_catalog_revision_bump_is_reported_even_without_control_edits() {
    let referenced = referenced_controls(&fedramp_rules());
    let delta = diff(
        &json(&catalog("5.2.0", "Use of External Systems")),
        &json(&catalog("5.3.0", "Use of External Systems")),
        &referenced,
    );
    assert!(delta.changed);
    let highlight = delta
        .highlights
        .iter()
        .find(|h| h.kind == "catalog")
        .expect("revision bump should be highlighted");
    assert_eq!(
        (highlight.from.as_str(), highlight.to.as_str()),
        ("5.2.0", "5.3.0")
    );
}
