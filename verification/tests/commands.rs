use fedramp_aion::bundle::{Bundle, SCHEMA};
use fedramp_aion::canon::canonicalize;
use fedramp_aion::commands::{
    check_issue, check_operator, cited_obligations, control_page, issue, issue_validation, kev_page, list_obligations, rules_of,
    sync_step, threshold_code, validation_action, validation_decision, validation_obligations,
    SyncStep, EXIT_THRESHOLD,
};
use fedramp_aion::json::Doc;
use fedramp_aion::obligations::Profile;
use fedramp_aion::receipt::{Decision, Inputs};
use fedramp_aion::severity::Severity;
use fedramp_aion::sources::{KEV, OSCAL, RULES};
use fedramp_aion::table::Table;
use fedramp_aion::validate::assess;

fn json(text: &str) -> Doc {
    canonicalize(text.as_bytes()).unwrap()
}

fn rules() -> Doc {
    json(
        r#"{"FRR": {"X": {"data": {"all": {"S": {
                "R-1": {"force": "MUST", "statement": "Patch each known exploited vulnerability.",
                        "schema": {"name": "Report", "url": "https://x/s.json"}},
                "R-2": {"force": "SHOULD", "statement": "Review."}}}}}},
            "CTL": {"AC": {"AC-06-01": {}}}}"#,
    )
}

fn bundle() -> Bundle {
    let mut content = Table::new();
    content.insert(RULES.to_string(), rules());
    content.insert(
        OSCAL.to_string(),
        json(
            r#"{"catalog": {"controls": [{"id": "ac-6.1", "title": "Least Privilege",
                "parts": [{"prose": "First."}, {}, {"prose": "Second."}]}, {"id": "pm-31"}]}}"#,
        ),
    );
    content.insert(
        KEV.to_string(),
        json(
            r#"{"vulnerabilities": [
                {"cveID": "CVE-2026-1", "dueDate": "2026-08-01", "product": "FMC"},
                {"cveID": "CVE-2026-2", "dueDate": "2026-08-15"}, {"cveID": "CVE-2026-3"}]}"#,
        ),
    );
    Bundle {
        schema: SCHEMA.into(),
        upstream_version: "v".into(),
        sources: Table::new(),
        content,
    }
}

#[test]
fn the_exit_code_follows_the_threshold() {
    assert_eq!(threshold_code(Severity::Major, Some(Severity::Minor)), EXIT_THRESHOLD);
    assert_eq!(threshold_code(Severity::Routine, Some(Severity::Minor)), 0);
    assert_eq!(threshold_code(Severity::Major, None), 0);
    assert_eq!(EXIT_THRESHOLD, 2);
}

#[test]
fn a_sync_commits_what_moved() {
    assert_eq!(sync_step(false, false, false), SyncStep::Report);
    assert_eq!(sync_step(false, false, true), SyncStep::Report);
    assert_eq!(sync_step(true, false, true), SyncStep::Rehearse);
    assert_eq!(sync_step(false, true, false), SyncStep::Commit);
    assert_eq!(sync_step(true, false, false), SyncStep::Commit);
}

#[test]
fn the_feed_cannot_sign_about_itself() {
    assert!(check_operator(2, 1).is_ok());
    assert_eq!(
        check_operator(1, 1).unwrap_err().message,
        "operator 1 must differ from the feed author — a receipt signed by the feed attests to nothing"
    );
}

#[test]
fn a_receipt_cites_only_rules_that_apply() {
    let profile = Profile::default();
    let ids = |wanted: &[&str]| -> Vec<String> {
        let wanted: Vec<String> = wanted.iter().map(|s| s.to_string()).collect();
        cited_obligations(&rules(), &profile, &wanted)
            .unwrap()
            .into_iter()
            .map(|o| o.id)
            .collect()
    };
    assert_eq!(ids(&[]), vec!["R-1", "R-2"]);
    assert_eq!(ids(&["R-2", "R-2"]), vec!["R-2"]);
    let wanted = vec!["R-2".to_string(), "Z".to_string(), "A".to_string()];
    assert_eq!(
        cited_obligations(&rules(), &profile, &wanted).unwrap_err().message,
        "A is not an obligation for Providers — a receipt cannot cite a rule that does not apply"
    );
}

#[test]
fn listed_obligations_can_be_narrowed() {
    let count = |force: Option<&str>, with_schema: bool| {
        list_obligations(&rules(), &Profile::default(), force, with_schema).len()
    };
    assert_eq!(count(None, false), 2);
    assert_eq!(count(Some("must"), false), 1);
    assert_eq!(count(None, true), 1);
    assert_eq!(count(Some("SHOULD"), true), 0);
}

#[test]
fn a_payload_without_rules_is_refused() {
    assert!(rules_of(&bundle()).is_ok());
    let mut empty = bundle();
    empty.content = Table::new();
    assert_eq!(
        rules_of(&empty).unwrap_err().message,
        "chain payload has no rules section"
    );
}

#[test]
fn a_validation_receipt_cites_the_rules_that_require_the_artifact() {
    let schema = json("{}");
    let none: Vec<(String, String)> = Vec::new();
    let report = assess(&schema, Some(&rules()), "s.json", b"{}", "p.json", &none, Vec::new()).unwrap();
    assert_eq!(validation_action(&report), "Validated p.json against s.json — conformant");
    assert_eq!(validation_decision(&report), Decision::Satisfied);
    let cited = validation_obligations(Some(&rules()), &Profile::default(), &report);
    assert_eq!(cited.len(), 1);
    assert_eq!(cited[0].id, "R-1");
    let some = vec![("".to_string(), "bad".to_string())];
    let report = assess(&schema, None, "s.json", b"{}", "p.json", &some, Vec::new()).unwrap();
    assert_eq!(validation_action(&report), "Validated p.json against s.json — non-conformant");
    assert_eq!(validation_decision(&report), Decision::NotSatisfied);
    assert!(validation_obligations(None, &Profile::default(), &report).is_empty());
}

#[test]
fn a_control_reads_as_a_page() {
    assert_eq!(
        control_page(&bundle(), "AC-06-01", false).unwrap(),
        "# ac-6.1 — Least Privilege\n\nFedRAMP references this control.\n\nFirst.\n\nSecond.\n\n"
    );
    assert_eq!(
        control_page(&bundle(), "pm-31", false).unwrap(),
        "# pm-31 — (untitled)\n\n"
    );
    assert_eq!(
        control_page(&bundle(), "pm-31", true).unwrap(),
        "{\n  \"control\": {\n    \"id\": \"pm-31\"\n  },\n  \"id\": \"pm-31\",\n  \"referenced_by_fedramp\": false\n}\n"
    );
    assert_eq!(
        control_page(&bundle(), "zz-1", false).unwrap_err().message,
        "no 800-53 control `zz-1`"
    );
}

#[test]
fn a_vulnerability_reads_as_a_page() {
    assert_eq!(
        kev_page(&bundle(), Some("cve-2026-1"), None, false).unwrap(),
        "# CVE-2026-1 — known exploited\n\n— FMC\n—\n\ndue: 2026-08-01\nransomware: —\n\
         required action: —\n\ngoverned by: R-1\n"
    );
    assert_eq!(
        kev_page(&bundle(), Some("CVE-2026-3"), None, true).unwrap(),
        "{\n  \"cve\": \"CVE-2026-3\",\n  \"entry\": {\n    \"cveID\": \"CVE-2026-3\"\n  },\n  \"governed_by\": [\n    \"R-1\"\n  ]\n}\n"
    );
    assert_eq!(
        kev_page(&bundle(), Some("cve-1"), None, false).unwrap_err().message,
        "cve-1 is not in the signed KEV catalog"
    );
}

#[test]
fn the_catalog_is_summarised() {
    assert_eq!(
        kev_page(&bundle(), None, None, false).unwrap(),
        "3 known exploited vulnerabilities in the signed catalog\ngoverned by: R-1\n"
    );
    assert_eq!(
        kev_page(&bundle(), None, Some("2026-08-01"), false).unwrap(),
        "3 known exploited vulnerabilities in the signed catalog\ngoverned by: R-1\n1 due on or before 2026-08-01\n"
    );
    let mut empty = bundle();
    empty.content = Table::new();
    assert_eq!(
        kev_page(&empty, None, None, false).unwrap_err().message,
        "chain has no kev section; re-sync to add it"
    );
}

#[test]
fn a_receipt_is_issued_only_against_a_valid_chain_and_by_another_than_the_feed() {
    let bundle = bundle();
    let profile = Profile {
        role: "Providers".into(),
        class: None,
        cert_type: None,
        path: None,
    };
    let inputs = Inputs {
        action: "Reviewed",
        decision: Decision::Satisfied,
        operator: 2,
        receipt_version: 1,
        profile: &profile,
        obligations: &[],
        evidence: &[],
        bundle: &bundle,
        file_id: 5,
        chain_version: 1,
    };
    assert_eq!(
        issue(&inputs, &[7u8; 32], 2, true).unwrap_err().message,
        "operator 2 must differ from the feed author — a receipt signed by the feed attests to \
         nothing"
    );
    assert_eq!(
        issue(&inputs, &[7u8; 32], 1, false).unwrap_err().message,
        "refusing to issue a receipt against an invalid chain"
    );
    let receipt = issue(&inputs, &[7u8; 32], 1, true).unwrap();
    assert_eq!(receipt.claim.operator, 2);
    assert_eq!(receipt.claim.rules.file_id, "5");
    assert!(check_issue(2, 1, true).is_ok());
    assert_eq!(
        issue_validation(&inputs, &[7u8; 32], 2).unwrap_err().message,
        issue(&inputs, &[7u8; 32], 2, true).unwrap_err().message
    );
    let receipt = issue_validation(&inputs, &[7u8; 32], 1).unwrap();
    assert_eq!(receipt.claim.action, "Reviewed");
    assert!(check_issue(2, 2, true).is_err() && check_issue(2, 1, false).is_err());
}
