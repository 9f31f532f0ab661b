use fedramp_aion::bundle::{Bundle, SourceRecord, SCHEMA};
use fedramp_aion::canon::canonicalize;
use fedramp_aion::json::Doc;
use fedramp_aion::mcp::Server;
use fedramp_aion::sources::{Provenance, KEV, OSCAL, RULES};
use fedramp_aion::table::Table;
use serde_json::Value;

fn json(text: &str) -> Doc {
    canonicalize(text.as_bytes()).unwrap()
}

fn bundle() -> Bundle {
    let rules = json(
        r#"{
        "info": {"version": "2026.07.14.01"},
        "FRR": {"CCM": {
            "info": {"subsets": {"OCR": {"applicability": {
                "affects": ["Providers"], "classes": ["B","C","D"],
                "paths": ["Program","Agency"], "types": ["20x","Rev5"]}}}},
            "data": {"all": {"OCR": {"CCM-OCR-AVL": {
                "affects": ["Providers"], "force": "MUST",
                "statement": "Report availability of the ongoing certification report."}}}}}},
        "CTL": {"AC": {"AC-06-01": {"guidance": ["overlay"]}}}
    }"#,
    );
    let mut sources = Table::new();
    sources.insert(
        RULES.to_string(),
        SourceRecord {
            provenance: Provenance {
                repo: "FedRAMP/rules".into(),
                path: "fedramp-consolidated-rules.json".into(),
                commit: "083137da".into(),
                committed_at: "2026-07-14T21:11:57Z".into(),
                raw_sha256: "raw".into(),
                bytes: 1,
                files: Table::new(),
            },
            content_sha256: "c".into(),
            substance_sha256: "s".into(),
        },
    );
    let mut content = Table::new();
    content.insert(RULES.to_string(), rules);
    content.insert(
        OSCAL.to_string(),
        json(r#"{"catalog": {"controls": [{"id": "ac-6.1", "title": "T"}]}}"#),
    );
    content.insert(
        KEV.to_string(),
        json(r#"{"vulnerabilities": [{"cveID": "CVE-2026-1", "dueDate": "2026-08-01"}]}"#),
    );
    Bundle {
        schema: SCHEMA.into(),
        upstream_version: "2026.07.14.01".into(),
        sources,
        content,
    }
}

fn server() -> Server {
    Server::open(bundle(), 7, 6_675_964_335_526_256_880, true).unwrap()
}

fn handle(request: &str) -> Option<Value> {
    server()
        .handle_line(request)
        .map(|line| serde_json::from_str(&line).unwrap())
}

fn respond(tool: &str, arguments: &str) -> Value {
    handle(&format!(
        r#"{{"jsonrpc": "2.0", "id": 1, "method": "tools/call",
            "params": {{"name": "{tool}", "arguments": {arguments}}}}}"#
    ))
    .unwrap()
}

fn call(tool: &str, arguments: &str) -> Value {
    let response = respond(tool, arguments);
    assert_eq!(response["result"]["isError"], false, "{response}");
    let text = response["result"]["content"][0]["text"].as_str().unwrap();
    serde_json::from_str(text).unwrap()
}

fn refusal(tool: &str, arguments: &str) -> String {
    let response = respond(tool, arguments);
    assert_eq!(response["result"]["isError"], true, "{response}");
    response["result"]["content"][0]["text"]
        .as_str()
        .unwrap()
        .to_string()
}

#[test]
fn initialize_echoes_the_client_protocol_version() {
    let response = handle(
        r#"{"jsonrpc": "2.0", "id": 1, "method": "initialize",
            "params": {"protocolVersion": "2024-11-05"}}"#,
    )
    .unwrap();
    assert_eq!(response["result"]["protocolVersion"], "2024-11-05");
    assert_eq!(response["result"]["serverInfo"]["name"], "fedramp-aion");
    let response = handle(r#"{"id": 1, "method": "initialize"}"#).unwrap();
    assert_eq!(response["result"]["protocolVersion"], "2025-03-26");
}

#[test]
fn notifications_get_no_response() {
    assert!(handle(r#"{"jsonrpc": "2.0", "method": "notifications/initialized"}"#).is_none());
}

#[test]
fn unknown_method_is_a_jsonrpc_error() {
    let response = handle(r#"{"jsonrpc": "2.0", "id": 3, "method": "resources/read"}"#).unwrap();
    assert_eq!(response["error"]["code"], -32601);
    assert_eq!(response["error"]["message"], "unknown method `resources/read`");
    assert_eq!(response["id"], 3);
}

#[test]
fn every_tool_is_listed_with_a_schema() {
    let response = handle(r#"{"jsonrpc": "2.0", "id": 2, "method": "tools/list"}"#).unwrap();
    let tools = response["result"]["tools"].as_array().unwrap();
    assert_eq!(tools.len(), 6);
    for tool in tools {
        assert!(tool["name"].is_string());
        assert!(tool["description"].is_string());
        assert_eq!(tool["inputSchema"]["type"], "object");
    }
}

#[test]
fn a_tool_says_what_it_takes_and_needs() {
    let response = handle(r#"{"id": 2, "method": "tools/list"}"#).unwrap();
    let tools = response["result"]["tools"].as_array().unwrap();
    let search = tools.iter().find(|t| t["name"] == "fedramp_search").unwrap();
    assert_eq!(
        search["inputSchema"].to_string(),
        r#"{"properties":{"limit":{"description":"Default 20, max 100.","type":"integer"},"query":{"type":"string"}},"required":["query"],"type":"object"}"#
    );
}

/// The reason this surface exists: an agent's answer must be checkable.
#[test]
fn every_answer_cites_the_signed_version() {
    for (tool, arguments) in [
        ("fedramp_status", "{}"),
        ("fedramp_obligations", r#"{"class": "B", "type": "Rev5"}"#),
        ("fedramp_rule", r#"{"id": "CCM-OCR-AVL"}"#),
        ("fedramp_search", r#"{"query": "availability"}"#),
        ("fedramp_control", r#"{"id": "AC-06-01"}"#),
        ("fedramp_kev", "{}"),
        ("fedramp_kev", r#"{"cve": "CVE-2026-1"}"#),
    ] {
        let value = call(tool, arguments);
        let provenance = if tool == "fedramp_status" {
            value.clone()
        } else {
            value["provenance"].clone()
        };
        assert_eq!(provenance["chain_version"], 7, "{tool} lost its citation");
        assert_eq!(provenance["rules_commit"], "083137da", "{tool}");
        assert_eq!(
            provenance["chain_file_id"], "6675964335526256880",
            "{tool} rounded the file id"
        );
    }
}

#[test]
fn obligations_resolve_for_the_requested_profile() {
    let value = call("fedramp_obligations", r#"{"class": "B", "type": "Rev5"}"#);
    assert_eq!(value["count"], 1);
    assert_eq!(value["binding"], 1);
    assert_eq!(value["obligations"][0]["id"], "CCM-OCR-AVL");

    // Class A is excluded by the subset, so the agent must be told nothing
    // applies rather than being handed a rule that does not.
    let value = call("fedramp_obligations", r#"{"class": "A", "type": "Rev5"}"#);
    assert_eq!(value["count"], 0);
}

#[test]
fn a_missing_rule_is_an_error_not_an_empty_answer() {
    let text = refusal("fedramp_rule", r#"{"id": "NOPE-1"}"#);
    assert!(text.contains("no rule with id"));
}

#[test]
fn search_counts_characters() {
    assert_eq!(
        refusal("fedramp_search", r#"{"query": "éa"}"#),
        "query must be at least 3 characters"
    );
    assert_eq!(call("fedramp_search", r#"{"query": "éab"}"#)["query"], "éab");
}

#[test]
fn search_rejects_queries_too_short_to_be_meaningful() {
    assert_eq!(
        refusal("fedramp_search", r#"{"query": "a"}"#),
        "query must be at least 3 characters"
    );
}

#[test]
fn refusals_say_what_is_missing() {
    assert_eq!(refusal("fedramp_rule", "{}"), "`id` is required");
    assert_eq!(refusal("fedramp_search", "{}"), "`query` is required");
    assert_eq!(refusal("fedramp_control", r#"{"id": "AC-99"}"#), "no 800-53 control `ac-99`");
    assert_eq!(refusal("fedramp_nothing", "{}"), "unknown tool `fedramp_nothing`");
}

#[test]
fn a_control_comes_with_its_overlay() {
    let value = call("fedramp_control", r#"{"id": "AC-06-01"}"#);
    assert_eq!(value["id"], "ac-6.1");
    assert_eq!(value["requested"], "AC-06-01");
    assert_eq!(value["control"]["title"], "T");
    assert_eq!(value["fedramp_overlay"]["guidance"][0], "overlay");
    assert_eq!(value["referenced_by_fedramp"], true);
}

#[test]
fn a_cve_is_known_exploited_or_not() {
    let value = call("fedramp_kev", r#"{"cve": "cve-2026-1"}"#);
    assert_eq!(value["cve"], "CVE-2026-1");
    assert_eq!(value["known_exploited"], true);
    assert_eq!(value["entry"]["dueDate"], "2026-08-01");
    let value = call("fedramp_kev", r#"{"cve": "CVE-1"}"#);
    assert_eq!(value["known_exploited"], false);
    assert!(value["entry"].is_null());
    assert_eq!(call("fedramp_kev", "{}")["count"], 1);
}

#[test]
fn search_stops_at_its_limit() {
    let value = call("fedramp_search", r#"{"query": "AVAILABILITY"}"#);
    assert_eq!(value["query"], "availability");
    assert_eq!(value["count"], 1);
    assert_eq!(value["truncated"], false);
    assert_eq!(value["hits"][0]["id"], "CCM-OCR-AVL");
    assert_eq!(value["hits"][0]["force"], "MUST");
    assert!(value["hits"][0]["name"].is_null());
    let value = call("fedramp_search", r#"{"query": "availability", "limit": 1}"#);
    assert_eq!(value["truncated"], true);
}

#[test]
fn obligations_can_be_narrowed() {
    let value = call("fedramp_obligations", r#"{"force": "should"}"#);
    assert_eq!(value["count"], 0);
    let value = call("fedramp_obligations", r#"{"force": "must", "binding_only": true}"#);
    assert_eq!(value["count"], 1);
    assert_eq!(
        value["obligations"][0].to_string(),
        r#"{"cert_type":"all","family":"CCM","force":"MUST","id":"CCM-OCR-AVL","statement":"Report availability of the ongoing certification report.","subset":"OCR"}"#
    );
}

#[test]
fn an_invalid_chain_is_not_served() {
    assert_eq!(
        Server::open(bundle(), 7, 1, false).unwrap_err().message,
        "refusing to serve an invalid chain"
    );
}

#[test]
fn lines_are_answered_one_by_one() {
    assert!(server().handle_line("  \t").is_none());
    let response = handle("{not json").unwrap();
    assert_eq!(response["error"]["code"], -32700);
    assert!(response["id"].is_null());
    assert_eq!(
        server().handle_line(r#"{"id": "x", "method": "ping"}"#).unwrap(),
        r#"{"id":"x","jsonrpc":"2.0","result":{}}"#
    );
}
