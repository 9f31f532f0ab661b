use fedramp_aion::canon::canonicalize;
use fedramp_aion::diff::schemas::diff;
use fedramp_aion::json::Doc;
use fedramp_aion::severity::Severity;
use serde_json::Value;

const FILE: &str = "fedramp-incident-report-schema-2026-06-24.json";

fn value(text: &str) -> Value {
    serde_json::from_str(text).unwrap()
}

fn json(value: &Value) -> Doc {
    canonicalize(value.to_string().as_bytes()).unwrap()
}

fn files() -> Value {
    value(
        r#"{
        "fedramp-incident-report-schema-2026-06-24.json": {
            "type": "object",
            "required": ["incident_id"],
            "properties": {"incident_id": {"type": "string"}}
        }
    }"#,
    )
}

#[test]
fn unchanged_schemas_produce_nothing() {
    let delta = diff(&json(&files()), &json(&files()));
    assert!(!delta.changed);
    assert_eq!(delta.severity, Severity::Unchanged);
}

#[test]
fn a_new_dated_revision_is_an_add_and_a_remove() {
    let after = value(r#"{"fedramp-incident-report-schema-2026-09-01.json": {"type": "object"}}"#);
    let delta = diff(&json(&files()), &json(&after));
    assert_eq!(delta.added.len(), 1);
    assert_eq!(delta.removed.len(), 1);
    assert_eq!(delta.severity, Severity::Major);
}

#[test]
fn required_field_addition_is_highlighted_by_pointer() {
    let mut after = files();
    after[FILE]["required"] = value(r#"["incident_id", "reported_at"]"#);
    let delta = diff(&json(&files()), &json(&after));
    assert_eq!(delta.modified.len(), 1);
    assert_eq!(delta.modified[0].fields[0].field, "/required");
    assert_eq!(delta.highlights.len(), 1);
}

#[test]
fn nested_property_change_reports_full_pointer() {
    let mut after = files();
    after[FILE]["properties"]["incident_id"]["type"] = value("\"integer\"");
    let delta = diff(&json(&files()), &json(&after));
    assert_eq!(
        delta.modified[0].fields[0].field,
        "/properties/incident_id/type"
    );
}

#[test]
fn a_file_that_is_no_object_changes_at_its_root() {
    let before = value(r#"{"a.json": 1}"#);
    let after = value(r#"{"a.json": 2}"#);
    let delta = diff(&json(&before), &json(&after));
    assert_eq!(delta.modified[0].fields[0].field, "/");
    assert!(delta.highlights.is_empty());
}

#[test]
fn a_long_revision_is_cut_and_said_to_be() {
    let mut before = value(r#"{"a.json": {}}"#);
    let mut after = value(r#"{"a.json": {}}"#);
    for i in 0..41 {
        before["a.json"][format!("k{i:02}")] = value("1");
        after["a.json"][format!("k{i:02}")] = value("2");
    }
    let delta = diff(&json(&before), &json(&after));
    assert_eq!(delta.modified[0].fields.len(), 40);
    assert_eq!(
        delta.drift,
        vec!["a.json: 41 pointer changes, reporting the first 40"]
    );
}

#[test]
fn a_pointer_is_binding_by_whole_segments() {
    let at = |members: &str| json(&value(&format!(r#"{{"a.json": {{{members}}}}}"#)));
    let delta = diff(
        &at(r#""prototype": 1, "enumeration": 1, "x-required": 1, "type": "object""#),
        &at(r#""prototype": 2, "enumeration": 2, "x-required": 2, "type": "object""#),
    );
    assert_eq!(delta.modified[0].fields.len(), 3);
    assert!(delta.highlights.is_empty());
    let delta = diff(&at(r#""type": "object""#), &at(r#""type": "array""#));
    assert_eq!(delta.highlights.len(), 1);
    assert_eq!(delta.highlights[0].field, "/type");
    let delta = diff(
        &at(r#""properties": {"prototype": 1}"#),
        &at(r#""properties": {"prototype": 2}"#),
    );
    assert_eq!(delta.highlights[0].field, "/properties/prototype");
}
