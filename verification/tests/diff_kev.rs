use fedramp_aion::canon::canonicalize;
use fedramp_aion::diff::kev::{diff, flatten, governing_rules};
use fedramp_aion::json::Doc;
use fedramp_aion::severity::Severity;

fn json(text: &str) -> Doc {
    canonicalize(text.as_bytes()).unwrap()
}

fn catalog(released: &str, entries: &[String]) -> Doc {
    json(&format!(
        r#"{{"title": "CISA Catalog of Known Exploited Vulnerabilities",
            "catalogVersion": "2026.07.27", "dateReleased": "{released}",
            "count": {}, "vulnerabilities": [{}]}}"#,
        entries.len(),
        entries.join(",")
    ))
}

const RELEASED: &str = "2026-07-27T19:00:15.8632Z";

fn entry(cve: &str, due: &str) -> String {
    format!(
        r#"{{"cveID": "{cve}", "vendorProject": "Cisco", "product": "FMC",
            "dueDate": "{due}", "knownRansomwareCampaignUse": "Unknown",
            "requiredAction": "Apply mitigations per vendor instructions."}}"#
    )
}

#[test]
fn a_new_cve_is_minor() {
    let before = catalog(RELEASED, &[entry("CVE-2026-1", "2026-08-01")]);
    let after = catalog(
        RELEASED,
        &[
            entry("CVE-2026-1", "2026-08-01"),
            entry("CVE-2026-2", "2026-08-15"),
        ],
    );
    let delta = diff(&before, &after);
    assert_eq!(delta.severity, Severity::Minor);
    assert_eq!(delta.added, vec!["CVE-2026-2"]);
}

#[test]
fn a_due_date_change_is_routine_but_highlighted() {
    let before = catalog(RELEASED, &[entry("CVE-2026-1", "2026-08-01")]);
    let after = catalog(RELEASED, &[entry("CVE-2026-1", "2026-08-20")]);
    let delta = diff(&before, &after);
    assert_eq!(delta.severity, Severity::Routine);
    assert_eq!(delta.highlights.len(), 1);
    assert_eq!(delta.highlights[0].field, "dueDate");
}

/// The same catalogVersion can carry different content, so only the
/// vulnerability list may drive the verdict.
#[test]
fn identical_entries_are_no_change_whatever_the_header_says() {
    let before = catalog(RELEASED, &[entry("CVE-2026-1", "2026-08-01")]);
    let after = catalog(
        "2026-07-29T18:45:59.5809Z",
        &[entry("CVE-2026-1", "2026-08-01")],
    );
    assert!(!diff(&before, &after).changed);
}

#[test]
fn governing_rules_are_found_through_fedramps_own_aliases() {
    let rules = json(
        r#"{
        "FRD": {"data": {"all": {"FRD-KEV": {"alts": ["known exploited vulnerability", "KEV"]}}}},
        "FRR": {"VDR": {"data": {"all": {"CSO": {
            "VDR-CSO-KEV": {"statement": "Providers MUST remediate each known exploited vulnerability."},
            "VDR-CSO-OTH": {"statement": "Providers MUST patch quarterly."}}}}}}
    }"#,
    );
    assert_eq!(governing_rules(&rules), vec!["VDR-CSO-KEV"]);
}

#[test]
fn without_aliases_the_plain_term_is_looked_for() {
    let rules = json(
        r#"{"FRR": {"VDR": {"data": {"all": {"CSO": {
            "B": {"statement": "Known Exploited Vulnerabilities first."},
            "A": {"statement": "known exploited vulnerability"},
            "C": {}}}}}}}"#,
    );
    assert_eq!(governing_rules(&rules), vec!["A", "B"]);
}

#[test]
fn entries_without_an_id_are_left_out() {
    let map = flatten(&catalog(
        RELEASED,
        &[entry("CVE-2026-1", "2026-08-01"), "{}".to_string()],
    ));
    assert_eq!(map.len(), 1);
    assert!(map.contains_key("CVE-2026-1"));
}
