use fedramp_aion::canon::canonicalize;
use fedramp_aion::diff::rules::{diff, flatten};
use fedramp_aion::json::Doc;
use fedramp_aion::severity::Severity;
use serde_json::Value;

fn value(text: &str) -> Value {
    serde_json::from_str(text).unwrap()
}

fn json(value: &Value) -> Doc {
    canonicalize(value.to_string().as_bytes()).unwrap()
}

fn doc() -> Value {
    value(
        r#"{
        "info": {"version": "2026.07.14.01", "last_updated": "2026-07-14"},
        "FRD": {"info": {"name": "definitions"}, "data": {"all": {
            "FRD-ACV": {"term": "Accepted Vulnerability", "definition": "d"}}}},
        "FRR": {"VDR": {"info": {"name": "Vuln Detection", "status": "stable"},
            "data": {"all": {"FRP": {"VDR-FRP-ONE": {"statement": "s", "force": "SHOULD"}}},
                     "rev5": {"TFR": {"VDR-TFR-ONE": {"statement": "t", "force": "MUST"}}}}}},
        "KSI": {"CED": {"name": "Cybersecurity Education", "status": "stable",
            "indicators": {"KSI-CED-RAT": {"statement": "x", "controls": ["cp-3"]}}}},
        "CTL": {"AC": {"AC-20": {"guidance": ["g"]}}}
    }"#,
    )
}

#[test]
fn flatten_produces_fedramp_ids_including_applicability() {
    let (leaves, drift) = flatten(&json(&doc()));
    assert!(drift.is_empty());
    assert!(leaves.contains_key("FRD/all/FRD-ACV"));
    assert!(leaves.contains_key("FRR/VDR/all/FRP/VDR-FRP-ONE"));
    assert!(leaves.contains_key("FRR/VDR/rev5/TFR/VDR-TFR-ONE"));
    assert!(leaves.contains_key("KSI/CED/KSI-CED-RAT"));
    assert!(leaves.contains_key("CTL/AC/AC-20"));
    assert!(leaves.contains_key("FRR/VDR/info"));
}

#[test]
fn identical_documents_produce_no_change() {
    let delta = diff(&json(&doc()), &json(&doc()));
    assert!(!delta.changed);
    assert_eq!(delta.severity, Severity::Unchanged);
}

#[test]
fn version_bump_alone_is_metadata_not_major() {
    let mut after = doc();
    after["info"]["version"] = value("\"2026.08.01.01\"");
    let delta = diff(&json(&doc()), &json(&after));
    assert!(delta.changed);
    assert_eq!(delta.severity, Severity::Metadata);
    assert_eq!(delta.total(), 0);
}

#[test]
fn force_transition_is_highlighted_as_major() {
    let mut after = doc();
    after["FRR"]["VDR"]["data"]["all"]["FRP"]["VDR-FRP-ONE"]["force"] = value("\"MUST\"");
    let delta = diff(&json(&doc()), &json(&after));
    assert_eq!(delta.severity, Severity::Major);
    assert_eq!(delta.highlights.len(), 1);
    assert_eq!(delta.highlights[0].id, "FRR/VDR/all/FRP/VDR-FRP-ONE");
    assert_eq!(delta.highlights[0].to, "MUST");
}

#[test]
fn added_and_removed_rules_are_named() {
    let mut after = doc();
    after["FRR"]["VDR"]["data"]["all"]["FRP"]["VDR-FRP-TWO"] = value(r#"{"statement": "new"}"#);
    after["CTL"]["AC"].as_object_mut().unwrap().remove("AC-20");
    let delta = diff(&json(&doc()), &json(&after));
    assert_eq!(delta.added, vec!["FRR/VDR/all/FRP/VDR-FRP-TWO"]);
    assert_eq!(delta.removed, vec!["CTL/AC/AC-20"]);
}

#[test]
fn per_class_force_transition_is_highlighted() {
    let mut before = doc();
    before["FRR"]["VDR"]["data"]["all"]["FRP"]["VDR-FRP-ONE"]["varies_by_class"] =
        value(r#"{"a": {"force": "SHOULD"}, "b": {"force": "MUST"}}"#);
    let mut after = before.clone();
    after["FRR"]["VDR"]["data"]["all"]["FRP"]["VDR-FRP-ONE"]["varies_by_class"] =
        value(r#"{"a": {"force": "MUST"}, "b": {"force": "MUST"}}"#);

    let delta = diff(&json(&before), &json(&after));
    assert_eq!(delta.severity, Severity::Major);
    let highlight = delta
        .highlights
        .iter()
        .find(|h| h.kind == "force")
        .expect("per-class force transition should be highlighted");
    assert!(highlight.id.contains("(class a)"));
    assert_eq!(
        (highlight.from.as_str(), highlight.to.as_str()),
        ("SHOULD", "MUST")
    );
}

#[test]
fn a_dropped_class_is_highlighted_too() {
    let mut before = doc();
    before["FRR"]["VDR"]["data"]["all"]["FRP"]["VDR-FRP-ONE"]["varies_by_class"] =
        value(r#"{"a": {"force": "SHOULD"}, "b": {"force": "MUST"}}"#);
    let mut after = before.clone();
    after["FRR"]["VDR"]["data"]["all"]["FRP"]["VDR-FRP-ONE"]["varies_by_class"] =
        value(r#"{"b": {"force": "MUST"}}"#);

    let delta = diff(&json(&before), &json(&after));
    let highlight = delta
        .highlights
        .iter()
        .find(|h| h.id.contains("class a"))
        .unwrap();
    assert_eq!(highlight.to, "(absent)");
}

#[test]
fn unknown_section_is_reported_as_drift_not_dropped() {
    let mut after = doc();
    after["FRA"] = value(r#"{"anything": 1}"#);
    let delta = diff(&json(&doc()), &json(&after));
    assert_eq!(delta.added, vec!["FRA"]);
    assert!(delta.drift.iter().any(|d| d.contains("FRA")));
}

#[test]
fn removed_section_is_reported_as_drift() {
    let mut after = doc();
    after.as_object_mut().unwrap().remove("KSI");
    let delta = diff(&json(&doc()), &json(&after));
    assert!(delta.drift.iter().any(|d| d.contains("KSI")));
    assert_eq!(delta.severity, Severity::Major);
}

#[test]
fn a_document_that_is_no_object_is_drift() {
    let (leaves, drift) = flatten(&json(&value("[]")));
    assert_eq!(leaves.len(), 0);
    assert_eq!(drift, vec!["rules document is not an object"]);
}

#[test]
fn a_family_header_keeps_all_but_its_indicators() {
    let (leaves, _) = flatten(&json(&doc()));
    let header = leaves.member("KSI/CED/info").unwrap();
    assert!(header.get("indicators").is_none());
    assert_eq!(header.get("status").unwrap().as_str(), Some("stable"));
}
