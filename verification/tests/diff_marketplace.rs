use fedramp_aion::canon::canonicalize;
use fedramp_aion::diff::marketplace::diff;
use fedramp_aion::json::Doc;
use fedramp_aion::severity::Severity;
use serde_json::Value;

fn value(text: &str) -> Value {
    serde_json::from_str(text).unwrap()
}

fn json(value: &Value) -> Doc {
    canonicalize(value.to_string().as_bytes()).unwrap()
}

fn base() -> Value {
    value(
        r#"{
        "meta": {"last_change": "2026-07-30T02:27:34.555Z"},
        "data": {
            "Metrics": {"ready": 69, "total": 530},
            "Products": [{"id": "F1", "name": "Salesforce", "status": "Authorized", "reuse": 313}],
            "ReuseMapping": [{"id": "AG", "agency_id": 1}, {"id": "AG", "agency_id": 1}]
        }
    }"#,
    )
}

#[test]
fn daily_rewrite_with_no_content_move_is_not_a_change() {
    let mut after = base();
    after["meta"]["last_change"] = value("\"2026-07-31T06:27:00.000Z\"");
    let delta = diff(&json(&base()), &json(&after));
    assert!(!delta.changed);
    assert_eq!(delta.severity, Severity::Unchanged);
}

#[test]
fn counter_movement_is_routine() {
    let mut after = base();
    after["data"]["Products"][0]["reuse"] = value("314");
    let delta = diff(&json(&base()), &json(&after));
    assert_eq!(delta.severity, Severity::Routine);
    assert_eq!(delta.modified.len(), 1);
    assert!(delta.highlights.is_empty());
}

#[test]
fn status_change_is_minor_and_highlighted() {
    let mut after = base();
    after["data"]["Products"][0]["status"] = value("\"Ready\"");
    let delta = diff(&json(&base()), &json(&after));
    assert_eq!(delta.severity, Severity::Minor);
    assert_eq!(delta.highlights[0].field, "status");
}

#[test]
fn new_product_is_minor() {
    let mut after = base();
    after["data"]["Products"]
        .as_array_mut()
        .unwrap()
        .push(value(r#"{"id": "F2", "name": "Bidscale", "status": "In Process"}"#));
    let delta = diff(&json(&base()), &json(&after));
    assert_eq!(delta.severity, Severity::Minor);
    assert_eq!(delta.added, vec!["Products/F2"]);
}

#[test]
fn duplicate_ids_are_counted_not_keyed() {
    let mut after = base();
    after["data"]["ReuseMapping"]
        .as_array_mut()
        .unwrap()
        .push(value(r#"{"id": "AG", "agency_id": 2}"#));
    let delta = diff(&json(&base()), &json(&after));
    assert_eq!(delta.counts.get("ReuseMapping.rows_added"), Some(&1));
    assert!(delta.added.is_empty());
    assert_eq!(delta.severity, Severity::Routine);
}

#[test]
fn repeated_identical_rows_do_not_register_as_changes() {
    let delta = diff(&json(&base()), &json(&base()));
    assert_eq!(delta.counts.len(), 0);
    assert!(!delta.changed);
}

#[test]
fn metrics_object_moves_are_reported() {
    let mut after = base();
    after["data"]["Metrics"]["ready"] = value("70");
    let delta = diff(&json(&base()), &json(&after));
    assert_eq!(delta.modified[0].id, "Metrics");
    assert_eq!(delta.severity, Severity::Routine);
}

#[test]
fn rows_removed_are_counted_with_their_multiplicity() {
    let mut after = base();
    after["data"]["ReuseMapping"] = value(r#"[{"id": "AG", "agency_id": 2}]"#);
    let delta = diff(&json(&base()), &json(&after));
    assert_eq!(delta.counts.get("ReuseMapping.rows_added"), Some(&1));
    assert_eq!(delta.counts.get("ReuseMapping.rows_removed"), Some(&2));
}

#[test]
fn a_collection_that_lost_its_key_is_drift() {
    let mut after = base();
    after["data"]["Products"] = value(r#"[{"id": "F1"}, {"id": "F1"}, {"name": "no id"}]"#);
    let delta = diff(&json(&base()), &json(&after));
    assert_eq!(
        delta.drift,
        vec!["`Products` rows are not uniquely keyed by id — compared as a multiset"]
    );
    assert_eq!(delta.counts.get("Products.rows_added"), Some(&3));
    assert_eq!(delta.severity, Severity::Routine);
}

#[test]
fn a_product_that_left_is_minor() {
    let mut after = base();
    after["data"]["Products"] = value("[]");
    let delta = diff(&json(&base()), &json(&after));
    assert_eq!(delta.removed, vec!["Products/F1"]);
    assert_eq!(delta.severity, Severity::Minor);
}

#[test]
fn the_order_of_rows_does_not_count() {
    let rows = |products: &str, reuse: &str| {
        json(&value(&format!(
            r#"{{"data": {{"Products": {products}, "ReuseMapping": {reuse}}}}}"#
        )))
    };
    let delta = diff(
        &rows(
            r#"[{"id": "F1", "status": "Ready"}, {"id": "F2"}, {"id": "F3"}]"#,
            r#"[{"id": "A"}, {"id": "A"}, {"id": "B"}]"#,
        ),
        &rows(
            r#"[{"id": "F3"}, {"id": "F1", "status": "Ready"}, {"id": "F2"}]"#,
            r#"[{"id": "A"}, {"id": "B"}, {"id": "A"}]"#,
        ),
    );
    assert!(!delta.changed);
    assert_eq!(delta.severity, Severity::Unchanged);
    assert!(delta.highlights.is_empty() && delta.is_empty());
}
