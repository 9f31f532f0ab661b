use fedramp_aion::canon::canonicalize;
use fedramp_aion::diff::{compare_maps, field_changes, render, Delta, RENDER_LIMIT};
use fedramp_aion::json::Doc;
use fedramp_aion::table::Table;

fn json(text: &str) -> Doc {
    canonicalize(text.as_bytes()).unwrap()
}

#[test]
fn field_changes_names_only_moved_fields() {
    let old = json(r#"{"force": "SHOULD", "statement": "same", "note": "a"}"#);
    let new = json(r#"{"force": "MUST", "statement": "same", "note": "a"}"#);
    let changes = field_changes(&old, &new);
    assert_eq!(changes.len(), 1);
    assert_eq!(changes[0].field, "force");
    assert_eq!(changes[0].from, "SHOULD");
    assert_eq!(changes[0].to, "MUST");
}

#[test]
fn field_changes_report_added_and_removed_fields() {
    let changes = field_changes(&json(r#"{"a": 1}"#), &json(r#"{"b": 2}"#));
    let fields: Vec<&str> = changes.iter().map(|c| c.field.as_str()).collect();
    assert_eq!(fields, vec!["a", "b"]);
    assert_eq!(changes[0].to, "(absent)");
    assert_eq!(changes[1].from, "(absent)");
}

#[test]
fn compare_maps_promotes_configured_fields_to_highlights() {
    let mut before: Table<Doc> = Table::new();
    before.insert("R-1".to_string(), json(r#"{"force": "SHOULD"}"#));
    let mut after: Table<Doc> = Table::new();
    after.insert("R-1".to_string(), json(r#"{"force": "MUST"}"#));
    let mut delta = Delta::new("rules");
    compare_maps(&before, &after, &mut delta, &["force"], "force");
    assert_eq!(delta.highlights.len(), 1);
    assert_eq!(delta.highlights[0].id, "R-1");
}

#[test]
fn render_truncates_long_text_and_collapses_whitespace() {
    let long = Doc::Text("x ".repeat(400));
    let rendered = render(Some(&long));
    assert!(rendered.ends_with('…'));
    assert!(rendered.chars().count() <= RENDER_LIMIT + 1);
}

#[test]
fn render_writes_values_as_compact_json() {
    assert_eq!(render(None), "(absent)");
    assert_eq!(render(Some(&json(r#"{"b": [1, 2], "a": "x y"}"#))), r#"{"a":"x y","b":[1,2]}"#);
    assert_eq!(render(Some(&Doc::Text("a\n\t b ".to_string()))), "a b");
    assert_eq!(
        render(Some(&Doc::Text("\u{a0}a\u{2003}\u{3000}b\u{200b}".to_string()))),
        "a b\u{200b}"
    );
}

#[test]
fn scalars_diff_as_one_value() {
    let changes = field_changes(&json("1"), &json("\"x\""));
    assert_eq!(changes.len(), 1);
    assert_eq!(
        (changes[0].field.as_str(), changes[0].from.as_str(), changes[0].to.as_str()),
        ("value", "1", "x")
    );
}

#[test]
fn a_map_compared_with_itself_moves_nothing() {
    let mut map: Table<Doc> = Table::new();
    map.insert("b".to_string(), json(r#"{"x": 1}"#));
    map.insert("a".to_string(), json("[]"));
    let mut delta = Delta::new("rules");
    compare_maps(&map, &map, &mut delta, &["x"], "rule");
    assert!(delta.is_empty());
    assert_eq!(delta.total(), 0);
}

#[test]
fn the_two_zeros_are_one_value() {
    let parse = |text: &str| fedramp_aion::canon::parse_document(text.as_bytes()).unwrap();
    assert!(parse("-0.0").same(&parse("0.0")));
    assert!(parse(r#"{"a": [0.0]}"#).same(&parse(r#"{"a": [-0.0]}"#)));
    assert!(!parse("0.0").same(&parse("0")));
    assert!(!parse("0.5").same(&parse("-0.5")));
    assert!(field_changes(&parse(r#"{"a": 0.0}"#), &parse(r#"{"a": -0.0}"#)).is_empty());
}

#[test]
fn equal_fields_have_no_changes() {
    assert!(field_changes(&json(r#"{"a": 1, "b": [2]}"#), &json(r#"{"b": [2], "a": 1}"#)).is_empty());
    assert_eq!(field_changes(&json(r#"{"a": null}"#), &json("{}")).len(), 1);
}
