use fedramp_aion::canon::{canonicalize, digest_value, without_all};
use fedramp_aion::json::Doc;
use fedramp_aion::plan::compare;
use fedramp_aion::severity::Severity;
use fedramp_aion::sources::{
    is_source, spec_of, Provenance, Snapshot, KEV, MARKETPLACE, OSCAL, RULES, SCHEMAS,
};
use fedramp_aion::table::Table;

fn json(text: &str) -> Doc {
    canonicalize(text.as_bytes()).unwrap()
}

fn snapshot(id: &str, content: Doc) -> Snapshot {
    let substance = if is_source(id) {
        without_all(&content, &spec_of(id).volatile)
    } else {
        content.duplicate()
    };
    Snapshot {
        id: id.to_string(),
        provenance: Provenance {
            repo: "repo".into(),
            path: "path".into(),
            commit: "sha".into(),
            committed_at: "2026-07-14T21:11:00Z".into(),
            raw_sha256: "raw".into(),
            bytes: 1,
            files: Table::new(),
        },
        content_sha256: digest_value(&content).unwrap(),
        substance_sha256: digest_value(&substance).unwrap(),
        content,
    }
}

fn rules_at(version: &str, force: &str, updated: &str) -> Doc {
    json(&format!(
        r#"{{"info": {{"version": "{version}", "last_updated": "{updated}"}},
            "FRR": {{"VDR": {{"data": {{"all": {{"FRP": {{"VDR-FRP-ONE": {{"force": "{force}"}}}}}}}}}}}}}}"#
    ))
}

fn rules(version: &str, force: &str) -> Doc {
    rules_at(version, force, "2026-07-14")
}

fn market(reuse: i64) -> Doc {
    json(&format!(
        r#"{{"meta": {{"last_change": "2026-07-30T02:27:34.555Z"}},
            "data": {{"Products": [{{"id": "F1", "name": "Salesforce", "reuse": {reuse}}}]}}}}"#
    ))
}

fn schemas() -> Doc {
    json(r#"{"fedramp-incident-report-schema-2026-06-24.json": {"type": "object"}}"#)
}

fn all(version: &str, force: &str, reuse: i64) -> Vec<Snapshot> {
    vec![
        snapshot(RULES, rules(version, force)),
        snapshot(SCHEMAS, schemas()),
        snapshot(MARKETPLACE, market(reuse)),
    ]
}

#[test]
fn genesis_is_always_a_change() {
    let plan = compare(&all("v1", "SHOULD", 313), None);
    assert!(plan.genesis && plan.changed);
    assert_eq!(plan.severity, Severity::Major);
}

#[test]
fn rerun_against_the_same_pins_is_a_no_op() {
    let first = compare(&all("v1", "SHOULD", 313), None);
    let second = compare(&all("v1", "SHOULD", 313), Some(&first.bundle));
    assert!(!second.changed);
    assert_eq!(second.severity, Severity::Unchanged);
    assert_eq!(first.bundle_sha256, second.bundle_sha256);
}

#[test]
fn rules_change_outranks_concurrent_marketplace_churn() {
    let first = compare(&all("v1", "SHOULD", 313), None);
    let plan = compare(&all("v2", "MUST", 314), Some(&first.bundle));
    assert_eq!(plan.severity, Severity::Major);
    assert_eq!(plan.delta(RULES).unwrap().severity, Severity::Major);
    assert_eq!(plan.delta(MARKETPLACE).unwrap().severity, Severity::Routine);
    assert!(plan.headline().contains("RULES CHANGED"));
}

#[test]
fn marketplace_only_churn_stays_routine() {
    let first = compare(&all("v1", "SHOULD", 313), None);
    let plan = compare(&all("v1", "SHOULD", 314), Some(&first.bundle));
    assert!(plan.changed);
    assert_eq!(plan.severity, Severity::Routine);
    assert!(!plan.delta(RULES).unwrap().changed);
}

#[test]
fn volatile_timestamp_churn_alone_changes_nothing() {
    let first = compare(&all("v1", "SHOULD", 313), None);
    let mut later = all("v1", "SHOULD", 313);
    later[0].content = rules_at("v1", "SHOULD", "2026-08-30");
    later[0].content_sha256 = digest_value(&later[0].content).unwrap();
    let plan = compare(&later, Some(&first.bundle));
    assert!(!plan.changed);
}

#[test]
fn headlines_name_the_sources_that_moved() {
    let first = compare(&all("v1", "SHOULD", 313), None);
    assert_eq!(first.headline(), "FedRAMP rules v1 — genesis");
    let same = compare(&all("v1", "SHOULD", 313), Some(&first.bundle));
    assert_eq!(same.headline(), "FedRAMP sources unchanged");
    let plan = compare(&all("v2", "MUST", 314), Some(&first.bundle));
    assert_eq!(plan.headline(), "RULES CHANGED: v2 (rules, marketplace)");
    assert_eq!(plan.previous_upstream_version.as_deref(), Some("v1"));
}

#[test]
fn genesis_reports_what_is_signed() {
    let mut snapshots = all("v1", "SHOULD", 313);
    snapshots.push(snapshot(
        OSCAL,
        json(r#"{"catalog": {"controls": [{"id": "ac-1"}, {"id": "ac-2"}]}}"#),
    ));
    snapshots.push(snapshot(
        KEV,
        json(r#"{"vulnerabilities": [{"cveID": "CVE-2026-1"}]}"#),
    ));
    let plan = compare(&snapshots, None);
    let count = |source: &str, name: &str| plan.delta(source).unwrap().counts.get(name).copied();
    assert_eq!(count(RULES, "rules"), Some(1));
    assert_eq!(count(SCHEMAS, "files"), Some(1));
    assert_eq!(count(MARKETPLACE, "Products"), Some(1));
    assert_eq!(count(OSCAL, "controls"), Some(2));
    assert_eq!(count(KEV, "vulnerabilities"), Some(1));
}

#[test]
fn a_control_that_the_ruleset_references_is_major() {
    let ruleset = json(r#"{"CTL": {"AC": {"AC-01": {}}}}"#);
    let catalog = |title: &str| {
        json(&format!(
            r#"{{"catalog": {{"controls": [{{"id": "ac-1", "title": "{title}"}}]}}}}"#
        ))
    };
    let before = vec![
        snapshot(RULES, ruleset.duplicate()),
        snapshot(OSCAL, catalog("a")),
    ];
    let after = vec![snapshot(RULES, ruleset), snapshot(OSCAL, catalog("b"))];
    let first = compare(&before, None);
    let plan = compare(&after, Some(&first.bundle));
    assert_eq!(plan.delta(OSCAL).unwrap().severity, Severity::Major);
    assert_eq!(plan.delta(OSCAL).unwrap().modified.len(), 1);
}

#[test]
fn a_source_new_to_the_bundle_is_summarised() {
    let first = compare(&all("v1", "SHOULD", 313), None);
    let mut snapshots = all("v1", "SHOULD", 313);
    let controls: Vec<String> = (0..1196).map(|i| format!(r#"{{"id": "ac-{i}"}}"#)).collect();
    snapshots.push(snapshot(
        OSCAL,
        json(&format!(
            r#"{{"catalog": {{"controls": [{}]}}}}"#,
            controls.join(",")
        )),
    ));
    let plan = compare(&snapshots, Some(&first.bundle));
    let delta = plan.delta(OSCAL).unwrap();
    assert!(delta.changed);
    assert!(delta.added.is_empty());
    assert_eq!(delta.drift, vec!["oscal added to the bundle; 1,196 controls"]);
    assert_eq!(delta.counts.get("controls"), Some(&1196));
}

#[test]
fn a_source_without_a_strategy_is_minor() {
    let first = compare(&[snapshot("other", json("1"))], None);
    let plan = compare(&[snapshot("other", json("2"))], Some(&first.bundle));
    let delta = plan.delta("other").unwrap();
    assert_eq!(delta.severity, Severity::Minor);
    assert_eq!(delta.drift, vec!["no diff strategy for source `other`"]);
}

#[test]
fn a_moved_digest_is_a_change_even_unexplained() {
    let first = compare(&[snapshot(KEV, json(r#"{"count": 1}"#))], None);
    let plan = compare(&[snapshot(KEV, json(r#"{"count": 2}"#))], Some(&first.bundle));
    let delta = plan.delta(KEV).unwrap();
    assert!(delta.changed);
    assert_eq!(delta.severity, Severity::Metadata);
    assert_eq!(
        delta.drift,
        vec!["substance digest moved but the semantic diff found nothing in `kev`"]
    );
}

#[test]
fn the_drift_of_a_new_source_is_kept() {
    let first = compare(&[snapshot(SCHEMAS, schemas())], None);
    let snapshots = vec![snapshot(SCHEMAS, schemas()), snapshot(RULES, json("{}"))];
    let plan = compare(&snapshots, Some(&first.bundle));
    let delta = plan.delta(RULES).unwrap();
    assert!(delta.drift[0].starts_with("rules added to the bundle"));
    assert!(delta.drift.len() > 1, "{:?}", delta.drift);
}
