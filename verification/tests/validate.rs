use fedramp_aion::bundle::{Bundle, SCHEMA};
use fedramp_aion::canon::{canonicalize, sha256_hex};
use fedramp_aion::json::Doc;
use fedramp_aion::sources::SCHEMAS;
use fedramp_aion::table::Table;
use fedramp_aion::outside::Attempt;
use fedramp_aion::validate::{
    assess, binding_rules, report_markdown, retrieve, settle, validate, SchemaSet,
};

fn json(text: &str) -> Doc {
    canonicalize(text.as_bytes()).unwrap()
}

fn bundle_with(section: &str) -> Bundle {
    let mut content = Table::new();
    content.insert(SCHEMAS.to_string(), json(section));
    Bundle {
        schema: SCHEMA.into(),
        upstream_version: "v".into(),
        sources: Table::new(),
        content,
    }
}

fn schemas() -> SchemaSet {
    // Exactly the published shape: a path-form $ref, not a fragment.
    SchemaSet::from_bundle(&bundle_with(
        r#"{
        "fedramp-common-definitions-schema-2026-06-24.json": {
            "$id": "https://fedramp.gov/schemas/fedramp-common-definitions-schema-2026-06-24.json",
            "$schema": "https://json-schema.org/draft/2020-12/schema",
            "$defs": {
                "certificationPackageOverviewUri": {"type": "string", "format": "uri"},
                "reportPeriodDate": {
                    "type": "object",
                    "properties": {"startDate": {"type": "string"}, "endDate": {"type": "string"}},
                    "required": ["startDate", "endDate"]
                }
            }
        },
        "fedramp-ongoing-certification-report-schema-2026-06-24.json": {
            "$id": "https://fedramp.gov/schemas/fedramp-ongoing-certification-report-schema-2026-06-24.json",
            "$schema": "https://json-schema.org/draft/2020-12/schema",
            "type": "object",
            "properties": {
                "certificationPackageOverviewUri": {"$ref": "https://fedramp.gov/schemas/fedramp-common-definitions-schema-2026-06-24.json/$defs/certificationPackageOverviewUri"},
                "reportPeriod": {"$ref": "https://fedramp.gov/schemas/fedramp-common-definitions-schema-2026-06-24.json/$defs/reportPeriodDate"}
            },
            "required": ["certificationPackageOverviewUri", "reportPeriod"]
        }
    }"#,
    ))
    .unwrap()
}

const REPORT_SCHEMA: &str = "fedramp-ongoing-certification-report-schema-2026-06-24.json";
const COMMON_SCHEMA: &str = "fedramp-common-definitions-schema-2026-06-24.json";

fn valid_package() -> Vec<u8> {
    br#"{
        "certificationPackageOverviewUri": "https://example.gov/pkg.json",
        "reportPeriod": {"startDate": "2026-07-01", "endDate": "2026-09-30"}
    }"#
    .to_vec()
}

/// The whole point: the published path-form ref resolves offline.
#[test]
fn a_conformant_package_validates_despite_the_broken_refs() {
    let report = validate(
        &schemas(),
        None,
        REPORT_SCHEMA,
        &valid_package(),
        "pkg.json",
    )
    .unwrap();
    assert!(report.valid, "{:?}", report.findings);
    assert_eq!(report.repairs.len(), 2, "both refs should be repaired");
    assert!(report.repairs[0].contains("#/$defs/"));
}

#[test]
fn a_missing_required_field_is_reported_by_pointer() {
    let package = br#"{"reportPeriod": {"startDate": "2026-07-01", "endDate": "2026-09-30"}}"#;
    let report = validate(&schemas(), None, REPORT_SCHEMA, package, "pkg.json").unwrap();
    assert!(!report.valid);
    assert_eq!(report.findings.len(), 1);
    assert!(report.findings[0]
        .message
        .contains("certificationPackageOverviewUri"));
    assert_eq!(report.findings[0].pointer, "/");
}

/// A violation inside a repaired reference must still be caught — proving
/// the ref resolved to the real subschema rather than being skipped.
#[test]
fn a_violation_behind_a_repaired_ref_is_caught() {
    let package = br#"{
        "certificationPackageOverviewUri": "https://example.gov/pkg.json",
        "reportPeriod": {"startDate": "2026-07-01"}
    }"#;
    let report = validate(&schemas(), None, REPORT_SCHEMA, package, "pkg.json").unwrap();
    assert!(!report.valid);
    assert!(
        report
            .findings
            .iter()
            .any(|f| f.pointer.contains("reportPeriod")),
        "{:?}",
        report.findings
    );
}

#[test]
fn findings_are_sorted_so_output_is_stable() {
    let first = validate(&schemas(), None, REPORT_SCHEMA, b"{}", "p").unwrap();
    let second = validate(&schemas(), None, REPORT_SCHEMA, b"{}", "p").unwrap();
    assert_eq!(first.findings, second.findings);
    let pointers: Vec<&str> = first.findings.iter().map(|f| f.pointer.as_str()).collect();
    let mut sorted = pointers.clone();
    sorted.sort_unstable();
    assert_eq!(pointers, sorted);
}

#[test]
fn a_schema_outside_the_signed_set_is_refused() {
    let error = validate(&schemas(), None, "not-a-schema.json", &valid_package(), "p")
        .unwrap_err()
        .message;
    assert!(error.contains("no signed schema named"), "{error}");
}

#[test]
fn the_schema_name_is_inferred_from_the_package() {
    let package = json(&format!(
        r#"{{"$schema": "https://fedramp.gov/schemas/{REPORT_SCHEMA}"}}"#
    ));
    assert_eq!(
        schemas().resolve_name(None, &package).unwrap(),
        REPORT_SCHEMA
    );
    assert!(schemas().resolve_name(None, &json("{}")).is_err());
}

#[test]
fn binding_rules_join_schema_to_the_rules_that_require_it() {
    let rules = json(&format!(
        r#"{{"FRR": {{"CCM": {{"data": {{"all": {{"OCR": {{
            "CCM-OCR-AVL": {{"schema": {{"name": "Ongoing Certification Report",
                "url": "https://fedramp.gov/schemas/{REPORT_SCHEMA}"}}}},
            "CCM-OCR-OTH": {{"statement": "unrelated"}}}}}}}}}}}}}}"#
    ));
    assert_eq!(binding_rules(&rules, REPORT_SCHEMA), vec!["CCM-OCR-AVL"]);
}

#[test]
fn a_requested_schema_must_be_signed() {
    let set = schemas();
    assert_eq!(
        set.resolve_name(Some(COMMON_SCHEMA), &json("{}")).unwrap(),
        COMMON_SCHEMA
    );
    assert_eq!(
        set.resolve_name(Some("x"), &json("{}")).unwrap_err().message,
        format!("no signed schema named `x`. Available: {COMMON_SCHEMA}, {REPORT_SCHEMA}")
    );
    assert_eq!(set.names(), vec![COMMON_SCHEMA, REPORT_SCHEMA]);
}

#[test]
fn references_resolve_within_the_signed_set_only() {
    let set = schemas();
    let mut repairs = Vec::new();
    let base = "https://fedramp.gov/schemas/";
    let uri = format!("{base}{COMMON_SCHEMA}/$defs/reportPeriodDate");
    let resolved = retrieve(&set, &uri, &mut repairs).unwrap();
    assert_eq!(resolved.get("$id").unwrap().as_str(), Some(uri.as_str()));
    assert!(resolved.get("required").is_some());
    retrieve(&set, &uri, &mut repairs).unwrap();
    assert_eq!(
        repairs,
        vec![format!(
            "{COMMON_SCHEMA}/$defs/reportPeriodDate → {COMMON_SCHEMA}#/$defs/reportPeriodDate"
        )]
    );
    let whole = retrieve(&set, &format!("{base}{COMMON_SCHEMA}"), &mut repairs).unwrap();
    assert!(whole.same(set.get(COMMON_SCHEMA).unwrap()));
    assert_eq!(repairs.len(), 1);

    let mut message = |uri: &str| retrieve(&set, uri, &mut repairs).unwrap_err().message;
    assert_eq!(
        message("https://example.com/x.json"),
        "refusing to resolve `https://example.com/x.json`: outside the signed schema set"
    );
    assert_eq!(
        message(&format!("{base}x.json")),
        "`x.json` is not in the signed schema set"
    );
    assert_eq!(
        message(&format!("{base}{COMMON_SCHEMA}/$defs/none")),
        format!("`{COMMON_SCHEMA}` has no $defs/none")
    );
}

#[test]
fn a_reference_outside_the_signed_set_does_not_compile() {
    let set = SchemaSet::from_bundle(&bundle_with(
        r#"{"a.json": {"$id": "https://fedramp.gov/schemas/a.json",
            "$schema": "https://json-schema.org/draft/2020-12/schema",
            "$ref": "https://example.com/x.json"}}"#,
    ))
    .unwrap();
    assert_eq!(
        validate(&set, None, "a.json", b"{}", "p").unwrap_err().message,
        "schema `a.json` could not be compiled: Resource 'https://example.com/x.json' is not \
         present in a registry and retrieving it failed: refusing to resolve \
         `https://example.com/x.json`: outside the signed schema set"
    );
}

#[test]
fn a_reference_within_a_repaired_definition_resolves_too() {
    let set = SchemaSet::from_bundle(&bundle_with(
        r#"{"a.json": {"$id": "https://fedramp.gov/schemas/a.json",
                "$schema": "https://json-schema.org/draft/2020-12/schema",
                "$ref": "https://fedramp.gov/schemas/b.json/$defs/x"},
            "b.json": {"$id": "https://fedramp.gov/schemas/b.json",
                "$schema": "https://json-schema.org/draft/2020-12/schema",
                "$defs": {"x": {"properties": {"n": {"$ref": "https://fedramp.gov/schemas/c.json"}}}}},
            "c.json": {"$id": "https://fedramp.gov/schemas/c.json",
                "$schema": "https://json-schema.org/draft/2020-12/schema", "type": "integer"}}"#,
    ))
    .unwrap();
    let report = validate(&set, None, "a.json", br#"{"n": 1}"#, "p").unwrap();
    assert!(report.valid);
    assert_eq!(report.repairs, vec!["b.json/$defs/x → b.json#/$defs/x"]);
    let report = validate(&set, None, "a.json", br#"{"n": "one"}"#, "p").unwrap();
    assert_eq!(report.findings.len(), 1);
    assert_eq!(report.findings[0].pointer, "/n");
}

#[test]
fn a_package_that_is_no_json_is_refused() {
    assert_eq!(
        validate(&schemas(), None, REPORT_SCHEMA, b"<html>", "p")
            .unwrap_err()
            .message,
        "package is not valid JSON"
    );
}

#[test]
fn a_payload_without_schemas_is_refused() {
    let mut bundle = bundle_with("[]");
    assert_eq!(
        SchemaSet::from_bundle(&bundle).unwrap_err().message,
        "schemas section is not an object"
    );
    bundle.content = Table::new();
    assert_eq!(
        SchemaSet::from_bundle(&bundle).unwrap_err().message,
        "chain payload has no schemas section"
    );
}

#[test]
fn a_report_orders_its_findings_and_reads_as_a_page() {
    let schema = json("{}");
    let violations = vec![
        ("/b".to_string(), "z".to_string()),
        ("".to_string(), "top".to_string()),
        ("/b".to_string(), "a".to_string()),
    ];
    let repairs = vec!["x → y".to_string()];
    let rules = json(
        r#"{"FRR": {"C": {"data": {"all": {"S": {"R-1": {"schema": {"url": "https://x/s.json"}}}}}}}}"#,
    );
    let report = assess(&schema, Some(&rules), "s.json", b"{}", "pkg.json", &violations, repairs).unwrap();
    assert!(!report.valid);
    let digest = sha256_hex(b"{}");
    assert_eq!(
        report_markdown(&report),
        format!(
            "# pkg.json — INVALID\n\n| | |\n|---|---|\n\
             | schema | `s.json` |\n| schema digest | `{digest}` |\n\
             | package digest | `{digest}` |\n| findings | 3 |\n| required by | R-1 |\n\n\
             ## Findings\n\n- `/` — top\n- `/b` — a\n- `/b` — z\n\n\
             ## Reference repairs\n\nThe published schemas reference definitions by a path that \
             does not resolve. Validation applied these repairs:\n\n- `x → y`\n\n"
        )
    );
    let none: Vec<(String, String)> = Vec::new();
    let report = assess(&schema, None, "s.json", b"{}", "p", &none, Vec::new()).unwrap();
    assert!(report.valid);
    assert!(report.required_by.is_empty());
}

#[test]
fn findings_do_not_depend_on_the_order_of_violations() {
    let schema = json("{}");
    let mut violations: Vec<(String, String)> = [("/b", "z"), ("", "top"), ("/b", "a"), ("/a", "m")]
        .iter()
        .map(|(p, m)| (p.to_string(), m.to_string()))
        .collect();
    let first = assess(&schema, None, "s", b"", "p", &violations, Vec::new()).unwrap();
    violations.reverse();
    let second = assess(&schema, None, "s", b"", "p", &violations, Vec::new()).unwrap();
    assert_eq!(first.findings, second.findings);
    assert_eq!(first.findings.len(), 4);
}

fn small_set() -> SchemaSet {
    SchemaSet::from_bundle(&bundle_with(
        r#"{"a.json": {"type": "object"}, "b.json": {"$defs": {"x": {"type": "integer"}}}}"#,
    ))
    .unwrap()
}

#[test]
fn an_attempt_that_checked_the_package_ends_the_search() {
    let (mut known, mut repairs) = (Vec::new(), Vec::new());
    let found = vec![("/n".to_string(), "bad".to_string())];
    let attempt = Attempt::Checked(found.clone());
    let r = settle(&small_set(), &json("{}"), "a.json", attempt, &mut known, &mut repairs);
    assert_eq!(r.unwrap(), Some(found));
    assert!(known.is_empty() && repairs.is_empty());
}

#[test]
fn a_missing_reference_is_supplied_from_the_signed_set() {
    let (mut known, mut repairs) = (Vec::new(), Vec::new());
    let uri = "https://fedramp.gov/schemas/b.json/$defs/x";
    let attempt = Attempt::Missing(uri.to_string(), "offline".to_string());
    let r = settle(&small_set(), &json("{}"), "a.json", attempt, &mut known, &mut repairs);
    assert_eq!(r.unwrap(), None);
    assert_eq!(known.len(), 1);
    assert_eq!(known[0].0, uri);
    assert!(known[0].1.same(&json(
        r#"{"$id": "https://fedramp.gov/schemas/b.json/$defs/x", "type": "integer"}"#
    )));
    assert_eq!(repairs, vec!["b.json/$defs/x → b.json#/$defs/x"]);
    // What is at hand and still missed cannot be supplied again.
    let attempt = Attempt::Missing(uri.to_string(), "offline".to_string());
    let r = settle(&small_set(), &json("{}"), "a.json", attempt, &mut known, &mut repairs);
    assert_eq!(
        r.unwrap_err().message,
        format!(
            "schema `a.json` could not be compiled: Resource '{uri}' is not present in a registry \
             and retrieving it failed: offline"
        )
    );
    assert_eq!((known.len(), repairs.len()), (1, 1));
}

#[test]
fn a_failed_attempt_is_told_as_it_was() {
    let (mut known, mut repairs) = (Vec::new(), Vec::new());
    let attempt = Attempt::Failed("no such keyword".to_string());
    let r = settle(&small_set(), &json("{}"), "a.json", attempt, &mut known, &mut repairs);
    assert_eq!(
        r.unwrap_err().message,
        "schema `a.json` could not be compiled: no such keyword"
    );
    let attempt = Attempt::Missing("./x.json".to_string(), "No base URI is available".to_string());
    let r = settle(&small_set(), &json("{}"), "a.json", attempt, &mut known, &mut repairs);
    assert_eq!(
        r.unwrap_err().message,
        "schema `a.json` could not be compiled: Resource './x.json' is not present in a registry \
         and retrieving it failed: No base URI is available"
    );
}

#[test]
fn a_relative_reference_without_a_base_does_not_compile() {
    let set = SchemaSet::from_bundle(&bundle_with(r#"{"a.json": {"$ref": "./x.json"}}"#)).unwrap();
    assert_eq!(
        validate(&set, None, "a.json", b"{}", "p").unwrap_err().message,
        "schema `a.json` could not be compiled: Resource './x.json' is not present in a registry \
         and retrieving it failed: No base URI is available"
    );
}

#[test]
fn a_signed_meta_schema_is_supplied() {
    let set = SchemaSet::from_bundle(&bundle_with(
        r#"{"a.json": {"$id": "https://fedramp.gov/schemas/a.json",
                "$schema": "https://fedramp.gov/schemas/meta.json",
                "properties": {"n": {"$ref": "https://fedramp.gov/schemas/b.json"}}},
            "b.json": {"$id": "https://fedramp.gov/schemas/b.json",
                "$schema": "https://fedramp.gov/schemas/meta.json#", "type": "integer"},
            "c.json": {"$id": "https://fedramp.gov/schemas/c.json",
                "$schema": "https://json-schema.org/draft/2020-12/schema",
                "properties": {"n": {"$ref": "https://fedramp.gov/schemas/b.json"}}},
            "d.json": {"$id": "https://fedramp.gov/schemas/d.json",
                "$schema": "https://fedramp.gov/schemas/absent.json"},
            "meta.json": {"$id": "https://fedramp.gov/schemas/meta.json",
                "$schema": "https://json-schema.org/draft/2020-12/schema"}}"#,
    ))
    .unwrap();
    for name in ["a.json", "c.json"] {
        let report = validate(&set, None, name, br#"{"n": 1}"#, "p").unwrap();
        assert!(report.valid && report.repairs.is_empty(), "{name}");
        let report = validate(&set, None, name, br#"{"n": "one"}"#, "p").unwrap();
        assert_eq!(report.findings.len(), 1, "{name}");
        assert_eq!(report.findings[0].pointer, "/n");
    }
    assert_eq!(
        validate(&set, None, "d.json", b"{}", "p").unwrap_err().message,
        "schema `d.json` could not be compiled: Unknown meta-schema: \
         'https://fedramp.gov/schemas/absent.json'. Custom meta-schemas must be registered in \
         the registry before use"
    );
}

#[test]
fn each_signed_schema_keeps_its_own_dialect() {
    // In the older draft the siblings of a reference do not count.
    let set = SchemaSet::from_bundle(&bundle_with(
        r##"{"a.json": {"$id": "https://fedramp.gov/schemas/a.json",
                "$schema": "https://json-schema.org/draft/2020-12/schema",
                "properties": {"n": {"$ref": "https://fedramp.gov/schemas/b.json"}}},
            "b.json": {"$id": "https://fedramp.gov/schemas/b.json",
                "$schema": "http://json-schema.org/draft-07/schema#",
                "properties": {"m": {"$ref": "#/definitions/any", "type": "string"}},
                "definitions": {"any": {}}}}"##,
    ))
    .unwrap();
    let report = validate(&set, None, "a.json", br#"{"n": {"m": 1}}"#, "p").unwrap();
    assert!(report.valid, "{:?}", report.findings);
}

#[test]
fn names_that_nothing_asks_for_do_no_harm() {
    let set = SchemaSet::from_bundle(&bundle_with(
        r#"{"a.json": {"$id": "https://fedramp.gov/schemas/a.json",
                "$schema": "https://json-schema.org/draft/2020-12/schema",
                "properties": {"n": {"$ref": "https://fedramp.gov/schemas/b.json"},
                               "m": {"$ref": "https://fedramp.gov/schemas/c.json"}}},
            "b.json": {"$id": "https://fedramp.gov/schemas/b.json", "type": "integer",
                "$defs": {"x": {"$id": "https://example.com/x"}, "y": {"$id": "local"}}},
            "c.json": {"$id": "https://fedramp.gov/schemas/c.json", "type": "string"}}"#,
    ))
    .unwrap();
    let first = validate(&set, None, "a.json", br#"{"n": "one", "m": 1}"#, "p").unwrap();
    let second = validate(&set, None, "a.json", br#"{"n": "one", "m": 1}"#, "p").unwrap();
    assert_eq!(first.findings.len(), 2);
    assert_eq!(first.findings, second.findings);
}

#[test]
fn one_name_declared_twice_still_gives_a_verdict() {
    let set = SchemaSet::from_bundle(&bundle_with(
        r#"{"root.json": {"allOf": [{"$ref": "https://fedramp.gov/schemas/a.json"},
                {"$ref": "https://fedramp.gov/schemas/b.json"},
                {"$ref": "https://fedramp.gov/schemas/x.json"}]},
            "a.json": {"$defs": {"x": {"$id": "https://fedramp.gov/schemas/x.json", "type": "string"}}},
            "b.json": {"$defs": {"x": {"$id": "https://fedramp.gov/schemas/x.json", "type": "integer"}}},
            "x.json": {}}"#,
    ))
    .unwrap();
    let report = validate(&set, None, "root.json", b"1", "p").unwrap();
    assert!(report.findings.len() <= 1);
    assert_eq!(report.valid, report.findings.is_empty());
}
