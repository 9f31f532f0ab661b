use fedramp_aion::bundle::Bundle;
use fedramp_aion::canon::{canonical_bytes, from_hex};
use fedramp_aion::commands::{snapshot_mismatch, sync_step, threshold_code, SyncStep, EXIT_THRESHOLD};
use fedramp_aion::plan::{compare, Plan};
use fedramp_aion::report::{changes_markdown, github_outputs};
use fedramp_aion::severity::Severity;
use fedramp_aion::sources::{replayed_snapshot, spec_of, Snapshot};

fn rules(version: &str, force: &str) -> String {
    format!(
        r#"{{
        "info": {{"version": "{version}", "last_updated": "2026-07-14"}},
        "CPO": {{"info": {{"subsets": {{}}}}}},
        "FRD": {{"data": {{"all": {{"FRD-ACV": {{"term": "Accepted Vulnerability", "definition": "d"}}}}}}}},
        "FRR": {{"VDR": {{
            "info": {{"name": "Vulnerability Detection and Response", "status": "stable"}},
            "data": {{"all": {{"FRP": {{"VDR-FRP-ONE": {{"statement": "s", "force": "{force}"}}}}}}}}}}}},
        "KSI": {{"CED": {{"status": "stable", "indicators": {{"KSI-CED-RAT": {{"statement": "x"}}}}}}}},
        "CTL": {{"AC": {{"AC-20": {{"guidance": ["g"]}}}}}}
    }}"#
    )
}

fn schemas() -> String {
    r#"{"fedramp-incident-report-schema-2026-06-24.json": {
        "type": "object", "required": ["incident_id"]}}"#
        .to_string()
}

fn marketplace(last_change: &str, reuse: i64, status: &str) -> String {
    format!(
        r#"{{
        "meta": {{"last_change": "{last_change}", "produced_by": "General Services Administration"}},
        "data": {{
            "Metrics": {{"ready": 69, "total": 530}},
            "Products": [{{"id": "F1", "name": "Salesforce", "status": "{status}", "reuse": {reuse}}}],
            "ReuseMapping": [{{"id": "AG", "agency_id": 1}}, {{"id": "AG", "agency_id": 1}}]
        }}
    }}"#
    )
}

fn publish(rules: &str, schemas: &str, marketplace: &str) -> Vec<Snapshot> {
    [("rules", rules), ("schemas", schemas), ("marketplace", marketplace)]
        .iter()
        .map(|(id, text)| replayed_snapshot(&spec_of(id), text.as_bytes(), None).unwrap())
        .collect()
}

/// A chain held in memory: how many versions were signed, and the payload.
struct Chain {
    version: u64,
    payload: Option<Vec<u8>>,
}

impl Chain {
    fn new() -> Self {
        Chain { version: 0, payload: None }
    }

    fn previous(&self) -> Option<Bundle> {
        self.payload.as_ref().map(|bytes| Bundle::parse(bytes).unwrap())
    }

    fn sync(&mut self, snapshots: &[Snapshot]) -> (Plan, String) {
        let previous = self.previous();
        let plan = compare(snapshots, previous.as_ref());
        let version = match sync_step(plan.changed, false, false) {
            SyncStep::Commit => {
                self.version += 1;
                self.payload = Some(plan.bundle.to_bytes().unwrap());
                Some(self.version)
            }
            _ => None,
        };
        let outputs = github_outputs(&plan, version);
        (plan, outputs)
    }
}

fn severity_of(outputs: &str) -> Severity {
    outputs
        .lines()
        .find_map(|line| line.strip_prefix("severity="))
        .unwrap()
        .parse()
        .unwrap()
}

fn changed(outputs: &str) -> bool {
    outputs.lines().any(|line| line == "changed=true")
}

#[test]
fn genesis_then_daily_rewrites_then_real_changes() {
    let mut chain = Chain::new();
    let (_, outputs) = chain.sync(&publish(
        &rules("2026.07.14.01", "SHOULD"),
        &schemas(),
        &marketplace("2026-07-23T06:27:00Z", 313, "Authorized"),
    ));
    assert_eq!(chain.version, 1);
    assert!(outputs.contains("genesis=true"));

    // A rerun against identical upstream must not append a version.
    let (_, outputs) = chain.sync(&publish(
        &rules("2026.07.14.01", "SHOULD"),
        &schemas(),
        &marketplace("2026-07-23T06:27:00Z", 313, "Authorized"),
    ));
    assert_eq!(chain.version, 1);
    assert!(!changed(&outputs));

    // The daily marketplace rewrite with no content movement is a no-op.
    chain.sync(&publish(
        &rules("2026.07.14.01", "SHOULD"),
        &schemas(),
        &marketplace("2026-07-24T06:27:00Z", 313, "Authorized"),
    ));
    assert_eq!(chain.version, 1);

    // A counter tick is real but routine.
    let (_, outputs) = chain.sync(&publish(
        &rules("2026.07.14.01", "SHOULD"),
        &schemas(),
        &marketplace("2026-07-25T06:27:00Z", 314, "Authorized"),
    ));
    assert_eq!(chain.version, 2);
    assert_eq!(severity_of(&outputs), Severity::Routine);

    // A force transition outranks concurrent marketplace churn.
    let (plan, outputs) = chain.sync(&publish(
        &rules("2026.08.01.01", "MUST"),
        &schemas(),
        &marketplace("2026-07-26T06:27:00Z", 315, "Authorized"),
    ));
    assert_eq!(chain.version, 3);
    assert_eq!(severity_of(&outputs), Severity::Major);
    assert!(outputs.contains("rules_changed=true"));

    let report = changes_markdown(&plan);
    assert!(report.contains("`SHOULD` → `MUST`"));
    assert!(report.contains("was `2026.07.14.01`"));
}

#[test]
fn marketplace_status_change_is_minor_not_routine() {
    let mut chain = Chain::new();
    chain.sync(&publish(
        &rules("2026.07.14.01", "SHOULD"),
        &schemas(),
        &marketplace("2026-07-23T06:27:00Z", 313, "In Process"),
    ));
    let (_, outputs) = chain.sync(&publish(
        &rules("2026.07.14.01", "SHOULD"),
        &schemas(),
        &marketplace("2026-07-24T06:27:00Z", 313, "Authorized"),
    ));
    assert_eq!(severity_of(&outputs), Severity::Minor);
    assert_eq!(chain.version, 2);
}

#[test]
fn schema_revision_is_major() {
    let mut chain = Chain::new();
    chain.sync(&publish(
        &rules("2026.07.14.01", "SHOULD"),
        &schemas(),
        &marketplace("2026-07-23T06:27:00Z", 313, "Authorized"),
    ));
    let (plan, outputs) = chain.sync(&publish(
        &rules("2026.07.14.01", "SHOULD"),
        r#"{"fedramp-incident-report-schema-2026-09-01.json": {
            "type": "object", "required": ["incident_id", "reported_at"]}}"#,
        &marketplace("2026-07-24T06:27:00Z", 313, "Authorized"),
    ));
    assert_eq!(severity_of(&outputs), Severity::Major);
    assert!(changes_markdown(&plan).contains("2026-09-01"));
}

#[test]
fn edited_snapshot_fails_verification() {
    let mut chain = Chain::new();
    chain.sync(&publish(
        &rules("2026.07.14.01", "SHOULD"),
        &schemas(),
        &marketplace("2026-07-23T06:27:00Z", 313, "Authorized"),
    ));
    let bundle = chain.previous().unwrap();
    let signed = canonical_bytes(bundle.section("rules").unwrap()).unwrap();
    assert_eq!(snapshot_mismatch(&bundle, "rules", &signed), None);

    let edited = String::from_utf8(signed).unwrap().replace("SHOULD", "MUST");
    let error = snapshot_mismatch(&bundle, "rules", edited.as_bytes()).unwrap();
    assert!(error.starts_with("rules: signed "), "{error}");
    assert_eq!(
        snapshot_mismatch(&bundle, "kev", b"{}").unwrap(),
        "kev: not in the signed payload"
    );
    assert_eq!(
        snapshot_mismatch(&bundle, "rules", b"<html>").unwrap(),
        "rules: upstream payload is not valid JSON"
    );
}

#[test]
fn malformed_upstream_json_aborts_without_committing() {
    let error = replayed_snapshot(
        &spec_of("rules"),
        b"<!doctype html><html>rate limited</html>",
        None,
    )
    .unwrap_err();
    assert!(error.message.contains("not valid JSON"), "{}", error.message);
}

#[test]
fn fail_on_threshold_signals_without_blocking_the_commit() {
    let mut chain = Chain::new();
    chain.sync(&publish(
        &rules("2026.07.14.01", "SHOULD"),
        &schemas(),
        &marketplace("2026-07-23T06:27:00Z", 313, "Authorized"),
    ));
    let (plan, _) = chain.sync(&publish(
        &rules("2026.07.14.01", "SHOULD"),
        &schemas(),
        &marketplace("2026-07-24T06:27:00Z", 314, "Authorized"),
    ));
    assert_eq!(threshold_code(plan.severity, Some(Severity::Minor)), 0);

    let (plan, _) = chain.sync(&publish(
        &rules("2026.07.14.01", "SHOULD"),
        &schemas(),
        &marketplace("2026-07-25T06:27:00Z", 315, "Authorized"),
    ));
    assert_eq!(
        threshold_code(plan.severity, Some(Severity::Routine)),
        EXIT_THRESHOLD
    );
    assert_eq!(chain.version, 3);
}

/// A rule change must report who it lands on, not merely that it happened.
#[test]
fn a_rule_change_reports_the_affected_profiles() {
    let mut chain = Chain::new();
    chain.sync(&publish(
        &rules("2026.07.14.01", "SHOULD"),
        &schemas(),
        &marketplace("2026-07-23T06:27:00Z", 313, "Authorized"),
    ));
    let (plan, _) = chain.sync(&publish(
        &rules("2026.08.01.01", "MUST"),
        &schemas(),
        &marketplace("2026-07-24T06:27:00Z", 313, "Authorized"),
    ));
    let report = changes_markdown(&plan);
    assert!(report.contains("## Who this affects"), "{report}");
    // The SHOULD -> MUST must surface as a binding shift on a real profile row,
    // not merely as a header.
    let row = report
        .lines()
        .find(|l| l.starts_with("| Providers, class B, type Rev5 |"))
        .unwrap_or_else(|| panic!("no provider row in:\n{report}"));
    assert!(
        row.ends_with("| 1 |"),
        "expected one binding shift, got: {row}"
    );
}

/// Marketplace-only churn must not produce an obligation section at all.
#[test]
fn marketplace_churn_reports_no_obligation_impact() {
    let mut chain = Chain::new();
    chain.sync(&publish(
        &rules("2026.07.14.01", "SHOULD"),
        &schemas(),
        &marketplace("2026-07-23T06:27:00Z", 313, "Authorized"),
    ));
    let (plan, _) = chain.sync(&publish(
        &rules("2026.07.14.01", "SHOULD"),
        &schemas(),
        &marketplace("2026-07-24T06:27:00Z", 314, "Authorized"),
    ));
    let report = changes_markdown(&plan);
    assert!(!report.contains("## Who this affects"), "{report}");
}

#[test]
fn a_malformed_env_seed_is_rejected_before_signing() {
    let error = from_hex("not-hex").unwrap_err().message;
    assert!(error.contains("hex"), "{error}");
}

/// The signed payload must be a pure function of the pinned upstream commits.
#[test]
fn two_runs_from_identical_upstream_produce_identical_payloads() {
    let build = || -> String {
        let (_, outputs) = Chain::new().sync(&publish(
            &rules("2026.07.14.01", "SHOULD"),
            &schemas(),
            &marketplace("2026-07-23T06:27:00Z", 313, "Authorized"),
        ));
        outputs
            .lines()
            .find_map(|line| line.strip_prefix("bundle_sha256="))
            .unwrap()
            .to_string()
    };
    assert_eq!(build(), build());
}
