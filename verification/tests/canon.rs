use fedramp_aion::canon::{
    canonical_bytes, canonicalize, digest_value, document_text, from_hex, hex,
    parse_document, sha256_hex, without, without_all,
};
use fedramp_aion::json::Doc;

fn json(text: &str) -> Doc {
    canonicalize(text.as_bytes()).unwrap()
}

#[test]
fn hex_round_trips_and_rejects_malformed_input() {
    let bytes = [0u8, 1, 15, 16, 254, 255];
    assert_eq!(from_hex(&hex(&bytes)).unwrap(), bytes);
    assert!(from_hex("abc").is_err());
    assert!(from_hex("zz").is_err());
}

#[test]
fn canonicalization_absorbs_key_order_and_whitespace() {
    let a = canonicalize(br#"{"b":1,  "a":  2}"#).unwrap();
    let b = canonicalize(br#"{"a":2,"b":1}"#).unwrap();
    assert_eq!(digest_value(&a).unwrap(), digest_value(&b).unwrap());
}

#[test]
fn without_strips_nested_field_only() {
    let value = json(r#"{"info": {"version": "1", "last_updated": "x"}, "FRR": {}}"#);
    let projected = without(&value, &["info", "last_updated"]);
    let info = projected.get("info").unwrap();
    assert_eq!(info.get("version").unwrap().as_str(), Some("1"));
    assert!(info.get("last_updated").is_none());
    assert!(projected.get("FRR").is_some());
}

#[test]
fn without_is_a_noop_when_path_is_absent() {
    let value = json(r#"{"info": {"version": "1"}}"#);
    assert!(without(&value, &["meta", "last_change"]).same(&value));
}

#[test]
fn substance_ignores_timestamp_churn() {
    let day_one = json(r#"{"info": {"version": "2026.07.14.01", "last_updated": "2026-07-14"}}"#);
    let day_two = json(r#"{"info": {"version": "2026.07.14.01", "last_updated": "2026-07-20"}}"#);
    let strip = |v: &Doc| digest_value(&without(v, &["info", "last_updated"])).unwrap();
    assert_eq!(strip(&day_one), strip(&day_two));
    assert_ne!(
        digest_value(&day_one).unwrap(),
        digest_value(&day_two).unwrap()
    );
}

#[test]
fn a_canonical_document_has_a_fixed_text() {
    let value = json("{\"b\": [1, -2, true, null], \"a\": \"\\u00e9\"}");
    assert_eq!(
        String::from_utf8(canonical_bytes(&value).unwrap()).unwrap(),
        "{\"a\":\"é\",\"b\":[1,-2,true,null]}"
    );
}

#[test]
fn canonical_bytes_read_back_as_the_document() {
    let value = json(r#"{"n": 9007199254740991, "deep": {"x": [0.5, "y"]}}"#);
    let bytes = canonical_bytes(&value).unwrap();
    assert!(canonicalize(&bytes).unwrap().same(&value));
}

#[test]
fn an_html_error_page_is_not_json() {
    let error = canonicalize(b"<!doctype html>").unwrap_err();
    assert_eq!(error.message, "upstream payload is not valid JSON");
}

#[test]
fn digests_are_the_published_ones() {
    assert_eq!(
        sha256_hex(b"abc"),
        "ba7816bf8f01cfea414140de5dae2223b00361a396177a9cb410ff61f20015ad"
    );
    assert_eq!(digest_value(&json("{}")).unwrap(), sha256_hex(b"{}"));
}

#[test]
fn hex_errors_say_what_is_wrong() {
    assert_eq!(from_hex("").unwrap(), Vec::<u8>::new());
    assert_eq!(from_hex("0aFf").unwrap(), vec![0x0a, 0xff]);
    assert!(from_hex("abc").unwrap_err().message.contains("odd"));
    assert!(from_hex("zz").unwrap_err().message.contains("hex"));
}

#[test]
fn several_paths_are_stripped() {
    let value = json(r#"{"catalog": {"uuid": "u", "metadata": {"last-modified": "x", "version": "5"}}}"#);
    let spec = fedramp_aion::sources::spec_of("oscal");
    let projected = without_all(&value, &spec.volatile);
    assert!(projected.same(&json(r#"{"catalog": {"metadata": {"version": "5"}}}"#)));
}

#[test]
fn only_hexadecimal_digits_are_read() {
    assert_eq!(
        from_hex("00+f").unwrap_err().message,
        "invalid hex at byte 1: invalid digit found in string"
    );
    assert_eq!(
        from_hex("00aé1").unwrap_err().message,
        "invalid hex at byte 1: invalid digit found in string"
    );
    assert!(from_hex("aéb").is_err() && from_hex("éé").is_err() && from_hex("é0").is_err());
    assert!(from_hex("-1").is_err() && from_hex(" 1").is_err());
}

#[test]
fn every_json_text_has_a_canonical_form() {
    for text in ["1.0", "-0.0", "18446744073709551615", "1e-7", "1E21", "0.30000000000000004"] {
        let canonical = canonicalize(text.as_bytes()).unwrap();
        let parsed = parse_document(text.as_bytes()).unwrap();
        assert_eq!(digest_value(&canonical).unwrap(), digest_value(&parsed).unwrap());
    }
    let nested = |n: usize| format!("{}1{}", "[".repeat(n), "]".repeat(n));
    assert!(canonicalize(nested(127).as_bytes()).is_ok());
    assert_eq!(
        canonicalize(nested(128).as_bytes()).unwrap_err().message,
        "upstream payload is not valid JSON"
    );
}

#[test]
fn documents_are_read_and_written_as_they_stand() {
    let text = r#"{"a":18446744073709551615,"b":[-1,0.5,null]}"#;
    let doc = parse_document(text.as_bytes()).unwrap();
    assert_eq!(document_text(&doc), text);
    assert!(parse_document(b"{").is_err());
}
