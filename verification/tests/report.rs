use fedramp_aion::bundle::{Bundle, SourceRecord, SCHEMA};
use fedramp_aion::canon::canonicalize;
use fedramp_aion::diff::{Delta, FieldChange, Highlight, Modified};
use fedramp_aion::obligations::{select, Profile};
use fedramp_aion::plan::Plan;
use fedramp_aion::report::{
    can_pin, changes_markdown, commit_message, github_outputs, obligations_markdown, should_fail,
};
use fedramp_aion::severity::Severity;
use fedramp_aion::sources::Provenance;
use fedramp_aion::table::Table;

fn plan_fixture() -> Plan {
    let mut rules = Delta::new("rules");
    rules.changed = true;
    rules.severity = Severity::Major;
    rules.added = vec!["FRR/VDR/all/FRP/VDR-FRP-TWO".into()];
    rules.modified = vec![Modified {
        id: "FRR/VDR/all/FRP/VDR-FRP-ONE".into(),
        fields: vec![FieldChange {
            field: "force".into(),
            from: "SHOULD".into(),
            to: "MUST".into(),
        }],
    }];
    rules.highlights = vec![Highlight {
        kind: "rule".into(),
        id: "FRR/VDR/all/FRP/VDR-FRP-ONE".into(),
        field: "force".into(),
        from: "SHOULD".into(),
        to: "MUST".into(),
    }];
    let marketplace = Delta::new("marketplace");
    Plan {
        genesis: false,
        changed: true,
        severity: Severity::Major,
        upstream_version: "2026.08.01.01".into(),
        previous_upstream_version: Some("2026.07.14.01".into()),
        bundle_sha256: "abc123".into(),
        deltas: vec![rules, marketplace],
        bundle: Bundle {
            schema: SCHEMA.into(),
            upstream_version: "2026.08.01.01".into(),
            sources: Table::new(),
            content: Table::new(),
        },
        previous_rules: None,
    }
}

fn record(commit: &str) -> SourceRecord {
    SourceRecord {
        provenance: Provenance {
            repo: "FedRAMP/rules".into(),
            path: "p".into(),
            commit: commit.into(),
            committed_at: "2026-07-14T21:11:00Z".into(),
            raw_sha256: "d".into(),
            bytes: 1,
            files: Table::new(),
        },
        content_sha256: "x".into(),
        substance_sha256: "y".into(),
    }
}

#[test]
fn commit_message_leads_with_severity_and_counts() {
    let message = commit_message(&plan_fixture());
    assert!(message.starts_with("RULES CHANGED"));
    assert!(message.contains("rules: +1 -0 ~1"));
    assert_eq!(
        message,
        "RULES CHANGED: 2026.08.01.01 (rules) [rules: +1 -0 ~1]"
    );
}

#[test]
fn markdown_promotes_force_transitions_to_the_top() {
    let markdown = changes_markdown(&plan_fixture());
    let attention = markdown.find("## Requires attention").unwrap();
    let detail = markdown.find("## rules —").unwrap();
    assert!(attention < detail);
    assert!(markdown.contains("`SHOULD` → `MUST`"));
    assert!(markdown.contains("## marketplace — unchanged"));
}

#[test]
fn outputs_are_shell_safe_key_values() {
    let outputs = github_outputs(&plan_fixture(), Some(7));
    assert!(outputs.contains("changed=true"));
    assert!(outputs.contains("committed=true"));
    assert!(outputs.contains("severity=major"));
    assert!(outputs.contains("chain_version=7"));
    assert!(outputs.contains("rules_changed=true"));
    assert!(outputs.lines().all(|line| line.contains('=')));
}

#[test]
fn committed_is_false_when_no_version_was_signed() {
    let outputs = github_outputs(&plan_fixture(), None);
    assert!(outputs.contains("committed=false"));
}

#[test]
fn fail_threshold_ignores_quieter_changes() {
    assert!(should_fail(Severity::Major, Some(Severity::Major)));
    assert!(!should_fail(Severity::Routine, Some(Severity::Major)));
    assert!(!should_fail(Severity::Major, None));
    assert!(!should_fail(Severity::Unchanged, Some(Severity::Unchanged)));
}

#[test]
fn a_change_report_has_a_fixed_text() {
    let mut plan = plan_fixture();
    plan.bundle
        .sources
        .insert("rules".to_string(), record("083137da3b3cbd88"));
    plan.bundle
        .sources
        .insert("schemas".to_string(), record("offline-012345678901"));
    plan.deltas[0].drift = vec!["something new".to_string()];
    plan.deltas[0].counts.insert("rows".to_string(), 3);
    assert!(can_pin(&plan.bundle));
    assert_eq!(
        changes_markdown(&plan),
        "# RULES CHANGED: 2026.08.01.01 (rules)\n\n\
         | | |\n|---|---|\n\
         | severity | `major` |\n\
         | upstream rules version | `2026.08.01.01` (was `2026.07.14.01`) |\n\
         | bundle digest | `abc123` |\n\
         | pinned `rules` | [`083137da`](https://github.com/FedRAMP/rules/commit/083137da3b3cbd88) @ 2026-07-14T21:11:00Z |\n\
         | pinned `schemas` | `offline-012345678901` (offline replay) |\n\n\
         ## Requires attention\n\n\
         - **FRR/VDR/all/FRP/VDR-FRP-ONE** `force` — `SHOULD` → `MUST`\n\n\
         ## rules — major (1 added, 0 removed, 1 modified)\n\n\
         **Added**\n\n- `FRR/VDR/all/FRP/VDR-FRP-TWO`\n\n\
         **Modified**\n\n- `FRR/VDR/all/FRP/VDR-FRP-ONE` — force\n  - `force`: `SHOULD` → `MUST`\n\n\
         **Counts**\n\n- `rows`: 3\n\n\
         ## marketplace — unchanged\n\n\
         ## Upstream drift\n\n- something new\n\n"
    );
}

#[test]
fn long_lists_are_cut_and_said_to_be() {
    let mut plan = plan_fixture();
    plan.deltas[0].added = (0..27).map(|i| format!("R-{i}")).collect();
    let markdown = changes_markdown(&plan);
    assert!(markdown.contains("- `R-24`\n- …and 2 more\n"));
    assert!(!markdown.contains("`R-25`"));
}

#[test]
fn a_genesis_report_says_so() {
    let mut plan = plan_fixture();
    plan.genesis = true;
    assert!(changes_markdown(&plan).contains("Genesis version — the full FedRAMP ruleset"));
    assert_eq!(commit_message(&plan), "FedRAMP rules 2026.08.01.01 — genesis");
}

#[test]
fn a_short_or_offline_commit_is_pinned_whole() {
    let mut plan = plan_fixture();
    plan.bundle.sources.insert("rules".to_string(), record("ab"));
    assert!(changes_markdown(&plan).contains("[`ab`](https://github.com/FedRAMP/rules/commit/ab)"));
    plan.bundle
        .sources
        .insert("rules".to_string(), record("1234567é"));
    assert!(!can_pin(&plan.bundle));
}

#[test]
fn obligations_are_listed_with_their_force() {
    let rules = canonicalize(
        br#"{"FRR": {"X": {"data": {"all": {"S": {
            "R-1": {"force": "MUST", "statement": "Do."}, "R-2": {"force": "MAY", "statement": "Try."}}}}}}}"#,
    )
    .unwrap();
    let profile = Profile::default();
    assert_eq!(
        obligations_markdown(&profile, &select(&rules, &profile)),
        "# Obligations — Providers\n\n2 obligations, 1 binding\n\n\
         - **R-1** MUST — Do.\n- **R-2** MAY — Try.\n"
    );
}

#[test]
fn a_louder_run_trips_every_threshold_a_quieter_one_trips() {
    let all = [
        Severity::Unchanged,
        Severity::Metadata,
        Severity::Routine,
        Severity::Minor,
        Severity::Major,
    ];
    for threshold in all {
        for pair in all.windows(2) {
            assert!(!should_fail(pair[0], Some(threshold)) || should_fail(pair[1], Some(threshold)));
        }
    }
}
