use fedramp_aion::bundle::{rfc3339_nanos, Bundle, SourceRecord, SCHEMA};
use fedramp_aion::canon::canonicalize;
use fedramp_aion::sources::Provenance;
use fedramp_aion::table::Table;

fn record(committed_at: &str) -> SourceRecord {
    SourceRecord {
        provenance: Provenance {
            repo: "r".into(),
            path: "p".into(),
            commit: "c".into(),
            committed_at: committed_at.into(),
            raw_sha256: "d".into(),
            bytes: 1,
            files: Table::new(),
        },
        content_sha256: "x".into(),
        substance_sha256: "y".into(),
    }
}

fn bundle_with(times: &[&str]) -> Bundle {
    let mut sources = Table::new();
    for (i, t) in times.iter().enumerate() {
        sources.insert(format!("s{i}"), record(t));
    }
    Bundle {
        schema: SCHEMA.into(),
        upstream_version: "v".into(),
        sources,
        content: Table::new(),
    }
}

#[test]
fn timestamp_pins_to_newest_upstream_commit() {
    let bundle = bundle_with(&["2026-07-14T21:11:00Z", "2026-07-30T06:27:00Z"]);
    let expected = rfc3339_nanos("2026-07-30T06:27:00Z").unwrap();
    assert_eq!(bundle.pinned_timestamp(), Some(expected));
}

#[test]
fn bundle_bytes_round_trip_and_are_stable() {
    let bundle = bundle_with(&["2026-07-14T21:11:00Z"]);
    let first = bundle.to_bytes().unwrap();
    let reparsed = Bundle::parse(&first).unwrap();
    assert_eq!(first, reparsed.to_bytes().unwrap());
}

#[test]
fn parse_rejects_foreign_schema() {
    let mut bundle = bundle_with(&["2026-07-14T21:11:00Z"]);
    bundle.schema = "something-else/9".into();
    let bytes = bundle.to_bytes().unwrap();
    assert!(Bundle::parse(&bytes).is_err());
    assert_eq!(
        Bundle::parse(&bytes).unwrap_err().message,
        "previous chain payload uses schema something-else/9, this build writes fedramp-aion/1"
    );
}

#[test]
fn instants_are_counted_in_nanoseconds() {
    assert_eq!(rfc3339_nanos("1970-01-01T00:00:01.5Z"), Some(1_500_000_000));
    assert_eq!(rfc3339_nanos("1969-12-31T23:59:59Z"), None);
    assert_eq!(rfc3339_nanos("yesterday"), None);
    assert_eq!(bundle_with(&["yesterday"]).pinned_timestamp(), None);
}

#[test]
fn a_bundle_has_fixed_bytes() {
    let mut bundle = bundle_with(&["2026-07-14T21:11:00Z"]);
    bundle
        .content
        .insert("rules".to_string(), canonicalize(br#"{"z": 1, "a": []}"#).unwrap());
    let mut files = Table::new();
    files.insert("b.json".to_string(), "22".to_string());
    files.insert("a.json".to_string(), "11".to_string());
    let mut other = record("2026-07-15T00:00:00Z");
    other.provenance.files = files;
    bundle.sources.insert("s1".to_string(), other);
    assert_eq!(
        String::from_utf8(bundle.to_bytes().unwrap()).unwrap(),
        concat_lines(&[
            r#"{"content":{"rules":{"a":[],"z":1}},"schema":"fedramp-aion/1","sources":{"#,
            r#""s0":{"bytes":1,"commit":"c","committed_at":"2026-07-14T21:11:00Z","#,
            r#""content_sha256":"x","path":"p","raw_sha256":"d","repo":"r","substance_sha256":"y"},"#,
            r#""s1":{"bytes":1,"commit":"c","committed_at":"2026-07-15T00:00:00Z","#,
            r#""content_sha256":"x","files":{"a.json":"11","b.json":"22"},"path":"p","#,
            r#""raw_sha256":"d","repo":"r","substance_sha256":"y"}},"upstream_version":"v"}"#,
        ])
    );
    let reparsed = Bundle::parse(&bundle.to_bytes().unwrap()).unwrap();
    assert_eq!(reparsed.digest().unwrap(), bundle.digest().unwrap());
    assert_eq!(
        reparsed
            .sources
            .get("s1")
            .unwrap()
            .provenance
            .files
            .get("b.json")
            .map(String::as_str),
        Some("22")
    );
    assert_eq!(reparsed.substance("s1"), Some("y"));
    assert!(reparsed.section("rules").is_some());
    assert!(reparsed.section("oscal").is_none());
}

fn concat_lines(lines: &[&str]) -> String {
    lines.concat()
}

#[test]
fn what_is_no_bundle_is_refused() {
    for text in [
        "not json",
        "[]",
        r#"{"schema": "fedramp-aion/1"}"#,
        r#"{"schema":"fedramp-aion/1","upstream_version":"v","sources":{"s":{}},"content":{}}"#,
    ] {
        assert_eq!(
            Bundle::parse(text.as_bytes()).unwrap_err().message,
            "previous chain payload is not a fedramp-aion bundle"
        );
    }
}

#[test]
fn a_bundle_can_be_written_as_the_list_of_its_values() {
    let bundle = Bundle::parse(br#"["fedramp-aion/1", "v", {}, {"rules": 1}]"#).unwrap();
    assert_eq!(bundle.upstream_version, "v");
    assert!(bundle.section("rules").is_some());
    assert!(Bundle::parse(br#"["fedramp-aion/1", "v", {}]"#).is_err());
}
