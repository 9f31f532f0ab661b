use fedramp_aion::canon::{canonicalize, digest_value, sha256_hex};
use fedramp_aion::sources::{
    commit_listing_url, contents_url, extension_of, fetcher, file_snapshot, is_source,
    raw_url, replayed_snapshot, resolve_commit, resolve_listing, sources, spec_of, Directory,
    Fetcher,
};

#[test]
fn the_registry_names_four_sources() {
    let ids: Vec<&str> = sources().iter().map(|s| s.id).collect();
    assert_eq!(ids, vec!["rules", "schemas", "oscal", "marketplace"]);
    assert_eq!(spec_of("rules").repo, "FedRAMP/rules");
    assert!(spec_of("schemas").is_dir);
    assert_eq!(spec_of("marketplace").volatile, vec![vec!["meta"]]);
    assert!(is_source("oscal"));
    assert!(!is_source("kev"));
}

#[test]
fn a_directory_wins_over_the_network() {
    assert_eq!(
        fetcher(Some("snapshots".to_string()), Some("t".to_string())),
        Fetcher::Dir { root: "snapshots".to_string() }
    );
    assert_eq!(
        fetcher(None, Some("t".to_string())),
        Fetcher::Http { token: Some("t".to_string()) }
    );
}

#[test]
fn urls_pin_what_is_fetched() {
    assert_eq!(
        commit_listing_url("FedRAMP/schemas", ""),
        "https://api.github.com/repos/FedRAMP/schemas/commits?per_page=1"
    );
    assert_eq!(
        commit_listing_url("FedRAMP/rules", "a.json"),
        "https://api.github.com/repos/FedRAMP/rules/commits?path=a.json&per_page=1"
    );
    assert_eq!(
        raw_url("FedRAMP/rules", "abc", "a.json"),
        "https://raw.githubusercontent.com/FedRAMP/rules/abc/a.json"
    );
    assert_eq!(
        contents_url("FedRAMP/schemas", "abc"),
        "https://api.github.com/repos/FedRAMP/schemas/contents/?ref=abc"
    );
}

#[test]
fn a_commit_listing_resolves_to_its_head() {
    let body = br#"[{"sha": "abc", "commit": {"committer": {"date": "2026-07-14T21:11:00Z"}}}, {}]"#;
    assert_eq!(
        resolve_commit(body, "r", "p").unwrap(),
        ("abc".to_string(), "2026-07-14T21:11:00Z".to_string())
    );
    let message = |body: &[u8]| resolve_commit(body, "r", "p").unwrap_err().message;
    assert_eq!(message(b"<html>"), "commit listing for r was not JSON");
    assert_eq!(message(b"[]"), "no commits found for r:p");
    assert_eq!(message(br#"{"message": "rate limited"}"#), "no commits found for r:p");
    assert_eq!(message(b"[{}]"), "commit listing had no sha");
    assert_eq!(message(br#"[{"sha": "abc"}]"#), "commit listing had no committer date");
}

#[test]
fn extensions_follow_the_last_dot_of_the_file_name() {
    assert_eq!(extension_of("a.json").as_deref(), Some("json"));
    assert_eq!(extension_of("a.tar.JSON").as_deref(), Some("JSON"));
    assert_eq!(extension_of("dir.json/readme"), None);
    assert_eq!(extension_of("dir/a.json/").as_deref(), Some("json"));
    assert_eq!(extension_of(".json"), None);
    assert_eq!(extension_of("a."), Some("".to_string()));
    assert_eq!(extension_of(".."), None);
    assert_eq!(extension_of(""), None);
}

#[test]
fn a_listing_names_its_json_files() {
    let body = br#"[{"name": "a.json", "type": "file"}, {"name": "b.JSON", "type": "file"},
        {"name": "c.md", "type": "file"}, {"name": "d.json", "type": "dir"}, {"type": "file"}]"#;
    assert_eq!(resolve_listing(body).unwrap(), vec!["a.json", "b.JSON"]);
    assert_eq!(
        resolve_listing(b"{}").unwrap_err().message,
        "contents listing was not an array"
    );
    assert!(resolve_listing(b"<html>").is_err());
}

#[test]
fn a_file_snapshot_pins_its_bytes() {
    let raw = br#"{"info": {"version": "v1", "last_updated": "x"}}"#;
    let snapshot = file_snapshot(&spec_of("rules"), "abc", "2026-07-14T21:11:00Z", raw).unwrap();
    assert_eq!(snapshot.id, "rules");
    assert_eq!(snapshot.provenance.raw_sha256, sha256_hex(raw));
    assert_eq!(snapshot.provenance.bytes, raw.len() as u64);
    let content = canonicalize(raw).unwrap();
    assert_eq!(snapshot.content_sha256, digest_value(&content).unwrap());
    let substance = canonicalize(br#"{"info": {"version": "v1"}}"#).unwrap();
    assert_eq!(snapshot.substance_sha256, digest_value(&substance).unwrap());
    assert!(file_snapshot(&spec_of("rules"), "abc", "t", b"<html>").is_err());
}

#[test]
fn a_directory_is_gathered_file_by_file() {
    let mut directory = Directory::new();
    directory.add_file("b.json", b"{\"x\": 1}").unwrap();
    directory.add_file("a.json", b"[]").unwrap();
    assert!(directory.add_file("c.json", b"<html>").is_err());
    assert_eq!(directory.bytes, 10);
    let snapshot = directory
        .snapshot(&spec_of("schemas"), "abc", "2026-07-14T21:11:00Z")
        .unwrap();
    assert_eq!(snapshot.provenance.path, "*.json");
    assert_eq!(snapshot.provenance.files.len(), 2);
    assert_eq!(
        snapshot.provenance.raw_sha256,
        sha256_hex(br#"{"a.json":[],"b.json":{"x":1}}"#)
    );
    assert_eq!(
        Directory::new()
            .snapshot(&spec_of("schemas"), "abc", "t")
            .unwrap_err()
            .message,
        "FedRAMP/schemas exposed no .json files at abc"
    );
}

#[test]
fn a_replay_without_provenance_is_marked_offline() {
    let raw = b"{}";
    let snapshot = replayed_snapshot(&spec_of("rules"), raw, None).unwrap();
    assert_eq!(
        snapshot.provenance.commit,
        format!("offline-{}", &sha256_hex(raw)[..12])
    );
    assert_eq!(snapshot.provenance.committed_at, "1970-01-01T00:00:00Z");
}

#[test]
fn a_replay_takes_its_recorded_provenance() {
    let recorded = br#"{"repo": "r", "path": "p", "commit": "c", "committed_at": "t",
        "raw_sha256": "d", "bytes": 7, "files": {"a": "1"}}"#;
    let snapshot = replayed_snapshot(&spec_of("rules"), b"{}", Some(recorded)).unwrap();
    assert_eq!(snapshot.provenance.commit, "c");
    assert_eq!(snapshot.provenance.bytes, 7);
    assert_eq!(snapshot.provenance.files.get("a").map(String::as_str), Some("1"));
    let incomplete = br#"{"repo": "r"}"#;
    assert!(replayed_snapshot(&spec_of("rules"), b"{}", Some(incomplete)).is_err());
}

#[test]
fn a_provenance_can_be_recorded_as_the_list_of_its_values() {
    let recorded = br#"["r", "p", "c", "t", "d", 7, {"a": "1"}]"#;
    let snapshot = replayed_snapshot(&spec_of("rules"), b"{}", Some(recorded)).unwrap();
    assert_eq!(snapshot.provenance.commit, "c");
    assert_eq!(snapshot.provenance.files.get("a").map(String::as_str), Some("1"));
    let fewer = br#"["r", "p", "c", "t", "d", 7]"#;
    let snapshot = replayed_snapshot(&spec_of("rules"), b"{}", Some(fewer)).unwrap();
    assert_eq!(snapshot.provenance.bytes, 7);
    assert_eq!(snapshot.provenance.files.len(), 0);
    assert!(replayed_snapshot(&spec_of("rules"), b"{}", Some(br#"["r", "p"]"#)).is_err());
}
