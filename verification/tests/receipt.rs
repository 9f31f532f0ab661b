use aion_context::crypto::SigningKey;
use aion_context::key_registry::KeyRegistry;
use aion_context::types::AuthorId;
use fedramp_aion::bundle::{Bundle, SourceRecord, SCHEMA};
use fedramp_aion::canon::{canonical_bytes, canonicalize, hex, parse_document};
use fedramp_aion::obligations::{select, Obligation, Profile};
use fedramp_aion::receipt::{
    can_present, claim_digest, create, evidence_of, nonce, nonce_bytes, obligations_digest, open_receipt,
    parse_decision, seal, verdict_markdown, verify, Claim, Decision, EvidenceRef, Inputs,
    ObligationRef, PolicyBlock, ProfileRef, Receipt, Statement,
};
use fedramp_aion::sources::{Provenance, RULES};
use fedramp_aion::table::Table;

const OPERATOR: u64 = 2;
const SEED: [u8; 32] = [7u8; 32];
const FILE_ID: u64 = 6_675_964_335_526_256_880;

#[test]
fn decisions_parse_in_the_forms_a_cli_sees() {
    assert_eq!(parse_decision("satisfied").unwrap(), Decision::Satisfied);
    assert_eq!(
        parse_decision("not-satisfied").unwrap(),
        Decision::NotSatisfied
    );
    assert_eq!(
        parse_decision("NOT_SATISFIED").unwrap(),
        Decision::NotSatisfied
    );
    assert!(parse_decision("maybe").is_err());
}

#[test]
fn an_unknown_decision_is_named() {
    assert_eq!(
        parse_decision("May-Be").unwrap_err().message,
        "unknown decision `maybe` (satisfied, not-satisfied, compensating, unevaluated)"
    );
    assert_eq!(parse_decision("Compensating").unwrap(), Decision::Compensating);
    assert_eq!(parse_decision("un_evaluated").unwrap(), Decision::Unevaluated);
}

#[test]
fn obligation_digest_ignores_order_of_nothing_but_tracks_force() {
    let a = vec![ObligationRef {
        id: "X".into(),
        force: "MUST".into(),
    }];
    let b = vec![ObligationRef {
        id: "X".into(),
        force: "SHOULD".into(),
    }];
    assert_ne!(
        obligations_digest(&a),
        obligations_digest(&b),
        "a force change must break the digest"
    );
    let text = br#"[{"id":"X","force":"MUST"}]"#;
    assert_eq!(obligations_digest(&a), hex(blake3::hash(text).as_bytes()));
}

/// JCS serializes numbers as ECMAScript doubles, so a u64 file id above
/// 2^53 rounds. The chain's file id is a random u64 and hits this.
#[test]
fn a_large_file_id_survives_canonicalization() {
    let policy = PolicyBlock {
        file_id: FILE_ID.to_string(),
        chain_version: 1,
        feed_author: 1,
    };
    let canonical = canonical_bytes(&policy.to_value()).unwrap();
    let parsed = PolicyBlock::from_value(&canonicalize(&canonical).unwrap()).unwrap();
    assert_eq!(parsed.file_id, FILE_ID.to_string());
    assert!(
        String::from_utf8_lossy(&canonical).contains("6675964335526256880"),
        "file id was rounded by canonicalization"
    );
}

#[test]
fn nonces_differ_between_receipts() {
    assert_ne!(nonce(), nonce());
}

#[test]
fn a_nonce_is_two_numbers_least_byte_first() {
    assert_eq!(
        nonce_bytes(0x0102_0304_0506_0708, 1),
        vec![8, 7, 6, 5, 4, 3, 2, 1, 1, 0, 0, 0, 0, 0, 0, 0]
    );
}

fn bundle() -> Bundle {
    let rules = canonicalize(
        br#"{"info": {"version": "2026.07.14.01"}, "FRR": {"CCM": {"data": {"all": {"OCR": {
            "CCM-OCR-AVL": {"affects": ["Providers"], "force": "MUST", "statement": "Report."},
            "CCM-OCR-TWO": {"affects": ["Providers"], "force": "SHOULD", "statement": "Review."}}}}}}}"#,
    )
    .unwrap();
    let mut sources = Table::new();
    sources.insert(
        RULES.to_string(),
        SourceRecord {
            provenance: Provenance {
                repo: "FedRAMP/rules".into(),
                path: "p".into(),
                commit: "083137da3b3cbd88".into(),
                committed_at: "2026-07-14T21:11:57Z".into(),
                raw_sha256: "raw".into(),
                bytes: 1,
                files: Table::new(),
            },
            content_sha256: "c".into(),
            substance_sha256: "s".into(),
        },
    );
    let mut content = Table::new();
    content.insert(RULES.to_string(), rules);
    Bundle {
        schema: SCHEMA.into(),
        upstream_version: "2026.07.14.01".into(),
        sources,
        content,
    }
}

fn profile() -> Profile {
    Profile {
        role: "Providers".into(),
        class: Some("B".into()),
        cert_type: Some("Rev5".into()),
        path: None,
    }
}

fn registry(author: u64, seed: &[u8; 32]) -> String {
    let key = SigningKey::from_bytes(seed).unwrap();
    let mut registry = KeyRegistry::new();
    registry
        .register_author(
            AuthorId::new(author),
            key.verifying_key(),
            key.verifying_key(),
            1,
        )
        .unwrap();
    registry.to_trusted_json().unwrap()
}

fn inputs<'a>(
    bundle: &'a Bundle,
    profile: &'a Profile,
    obligations: &'a [Obligation],
    evidence: &'a [EvidenceRef],
) -> Inputs<'a> {
    Inputs {
        action: "Submitted the Q3 report",
        decision: Decision::Satisfied,
        operator: OPERATOR,
        receipt_version: 1,
        profile,
        obligations,
        evidence,
        bundle,
        file_id: FILE_ID,
        chain_version: 7,
    }
}

fn sealed() -> Receipt {
    let bundle = bundle();
    let profile = profile();
    let obligations = select(bundle.section(RULES).unwrap(), &profile);
    let evidence = vec![evidence_of("q3-report.json", b"CUI")];
    create(&inputs(&bundle, &profile, &obligations, &evidence), &SEED, 1).unwrap()
}

fn problems(receipt: &Receipt) -> Vec<String> {
    let bundle = bundle();
    verify(receipt, &registry(OPERATOR, &SEED), Some((&bundle, FILE_ID, 7)))
        .unwrap()
        .problems
}

#[test]
fn a_sealed_receipt_verifies_against_its_chain() {
    let bundle = bundle();
    let receipt = sealed();
    let verdict = verify(
        &receipt,
        &registry(OPERATOR, &SEED),
        Some((&bundle, FILE_ID, 7)),
    )
    .unwrap();
    assert!(verdict.is_valid(), "{:?}", verdict.problems);
    assert!(verdict.signature_valid && verdict.claim_bound);
    assert_eq!(verdict.matches_chain, Some(true));
    assert_eq!(verdict.obligations_reproduced, Some(true));
    assert_eq!(verdict.operator, OPERATOR);
    let alone = verify(&receipt, &registry(OPERATOR, &SEED), None).unwrap();
    assert_eq!(alone.matches_chain, None);
    assert!(alone.is_valid());
}

#[test]
fn a_sealed_receipt_opens_to_its_statement() {
    let statement = open_receipt(&sealed()).unwrap();
    assert_eq!(statement.predicate.operator, OPERATOR);
    assert_eq!(statement.predicate.policy.file_id, FILE_ID.to_string());
    assert_eq!(statement.predicate.nonce.len(), 32);
    let names: Vec<&str> = statement.subject.iter().map(|s| s.name.as_str()).collect();
    assert_eq!(
        names,
        vec!["action", "obligations", "rules", "claim", "evidence/q3-report.json"]
    );
}

#[test]
fn evidence_enters_by_digest_only() {
    let evidence = evidence_of("q3-report.json", b"CUI");
    assert_eq!(evidence.blake3, hex(blake3::hash(b"CUI").as_bytes()));
    assert_eq!(evidence.bytes, 3);
}

#[test]
fn editing_the_action_breaks_the_claim() {
    let mut receipt = sealed();
    receipt.claim.action.push('!');
    assert_eq!(
        problems(&receipt),
        vec![
            "claim field `action` does not match the signed digest",
            "claim field `claim` does not match the signed digest"
        ]
    );
}

#[test]
fn editing_any_other_field_breaks_the_claim() {
    let edits: Vec<fn(&mut Claim)> = vec![
        |c| c.decision = "not-satisfied".to_string(),
        |c| c.profile.class = Some("A".to_string()),
        |c| c.profile.path = Some("Agency".to_string()),
        |c| c.evidence[0].bytes = 4,
        |c| c.rules.upstream_version = "x".to_string(),
    ];
    for edit in edits {
        let mut receipt = sealed();
        edit(&mut receipt.claim);
        assert!(problems(&receipt)
            .contains(&"claim field `claim` does not match the signed digest".to_string()));
    }
    let mut receipt = sealed();
    receipt.claim.evidence.clear();
    assert!(!problems(&receipt).is_empty(), "evidence was dropped");
}

#[test]
fn downgrading_an_obligation_is_found_out() {
    let mut receipt = sealed();
    receipt.claim.obligations[0].force = "SHOULD".to_string();
    let problems = problems(&receipt);
    assert!(problems.contains(&"claim field `obligations` does not match the signed digest".to_string()));
    assert!(problems.contains(
        &"claimed obligations do not match what the signed rules say for this profile".to_string()
    ));
}

#[test]
fn swapping_an_evidence_digest_is_found_out() {
    let mut receipt = sealed();
    receipt.claim.evidence[0].blake3 = "0".repeat(64);
    assert!(problems(&receipt)
        .contains(&"evidence `q3-report.json` is not the signed digest".to_string()));
}

#[test]
fn reattributing_a_receipt_is_found_out() {
    let mut receipt = sealed();
    receipt.claim.operator = 3;
    assert!(problems(&receipt)
        .contains(&"claim names operator 3 but the signed statement names 2".to_string()));
}

#[test]
fn a_key_the_registry_does_not_pin_is_refused() {
    let bundle = bundle();
    let verdict = verify(
        &sealed(),
        &registry(OPERATOR, &[9u8; 32]),
        Some((&bundle, FILE_ID, 7)),
    )
    .unwrap();
    assert!(!verdict.signature_valid);
    assert!(verdict.problems[0].starts_with("signature: "));
}

#[test]
fn another_chain_or_bundle_is_told_apart() {
    let receipt = sealed();
    let key = registry(OPERATOR, &SEED);
    let mut other = bundle();
    let verdict = verify(&receipt, &key, Some((&other, 1, 7))).unwrap();
    assert_eq!(verdict.matches_chain, Some(false));
    assert_eq!(
        verdict.problems,
        vec!["receipt was issued against a different chain"]
    );
    other.upstream_version = "later".to_string();
    let verdict = verify(&receipt, &key, Some((&other, FILE_ID, 7))).unwrap();
    assert_eq!(
        verdict.problems,
        vec!["receipt cites this chain version but a different bundle digest"]
    );
    let verdict = verify(&receipt, &key, Some((&other, FILE_ID, 8))).unwrap();
    assert_eq!(verdict.matches_chain, Some(false));
    assert_eq!(verdict.obligations_reproduced, None);
    assert!(verdict.is_valid());
}

#[test]
fn two_pieces_of_evidence_of_one_name_cannot_both_be_bound() {
    let bundle = bundle();
    let profile = profile();
    let evidence = vec![evidence_of("a", b"1"), evidence_of("a", b"2")];
    let receipt = create(&inputs(&bundle, &profile, &[], &evidence), &SEED, 1).unwrap();
    assert_eq!(
        problems(&receipt),
        vec!["evidence `a` is not the signed digest"]
    );
}

#[test]
fn an_operator_above_two_to_the_fifty_third_is_rounded() {
    let bundle = bundle();
    let profile = profile();
    let mut inputs = inputs(&bundle, &profile, &[], &[]);
    inputs.operator = (1u64 << 53) + 1;
    let receipt = create(&inputs, &SEED, 1).unwrap();
    let statement = open_receipt(&receipt).unwrap();
    assert_eq!(statement.predicate.operator, 1u64 << 53);
}

#[test]
fn a_key_of_the_wrong_length_seals_nothing() {
    let bundle = bundle();
    let profile = profile();
    assert!(create(&inputs(&bundle, &profile, &[], &[]), &SEED[..31], 1).is_err());
}

#[test]
fn sealing_with_one_nonce_is_repeatable() {
    let bundle = bundle();
    let profile = profile();
    let inputs = inputs(&bundle, &profile, &[], &[]);
    let a = seal(&inputs, &SEED, 1, &[1; 16]).unwrap();
    let b = seal(&inputs, &SEED, 1, &[1; 16]).unwrap();
    let c = seal(&inputs, &SEED, 1, &[2; 16]).unwrap();
    assert!(a.envelope.same(&b.envelope));
    assert!(!a.envelope.same(&c.envelope));
}

#[test]
fn foreign_receipts_are_refused() {
    let key = registry(OPERATOR, &SEED);
    let mut receipt = sealed();
    receipt.schema = "other/1".to_string();
    assert_eq!(
        verify(&receipt, &key, None).unwrap_err().message,
        "receipt schema is other/1, expected fedramp-aion/receipt/1"
    );
    let mut receipt = sealed();
    receipt.envelope = canonicalize(b"{}").unwrap();
    assert!(verify(&receipt, &key, None)
        .unwrap_err()
        .message
        .starts_with("receipt envelope is unreadable: "));
}

#[test]
fn profiles_carry_over_both_ways() {
    let reference = ProfileRef::from(&profile());
    assert_eq!(reference.class.as_deref(), Some("B"));
    assert_eq!(Profile::from(&reference), profile());
}

#[test]
fn a_verdict_reads_as_a_page() {
    let bundle = bundle();
    let mut receipt = sealed();
    assert!(can_present(&receipt.claim));
    let key = registry(OPERATOR, &SEED);
    let verdict = verify(&receipt, &key, Some((&bundle, FILE_ID, 7))).unwrap();
    let digest = hex(blake3::hash(b"CUI").as_bytes());
    assert_eq!(
        verdict_markdown(&receipt, &verdict),
        format!(
            "# Receipt — Submitted the Q3 report\n\n\
             | check | result |\n|---|---|\n\
             | signature by operator 2 | PASS |\n\
             | claim bound to signature | PASS |\n\
             | cites this chain | PASS |\n\
             | obligations match the signed rules | PASS |\n\n\
             - decision: `satisfied`\n- profile: Providers \n\
             - rules: chain v7, upstream `2026.07.14.01`, commit `083137da`\n\
             - obligations: 2\n\
             - evidence `q3-report.json` (3 bytes) blake3 `{}`\n\n\
             **VALID**\n",
            &digest[..16]
        )
    );
    receipt.claim.operator = 3;
    let verdict = verify(&receipt, &key, None).unwrap();
    let page = verdict_markdown(&receipt, &verdict);
    assert!(page.contains("| claim bound to signature | FAIL |"));
    assert!(page.contains("\n**INVALID**\n- claim field `claim`"));
    receipt.claim.evidence[0].blake3 = "short".to_string();
    assert!(!can_present(&receipt.claim));
}

#[test]
fn the_whole_claim_is_digested() {
    let mut claim = sealed().claim;
    claim.evidence.clear();
    claim.obligations.truncate(1);
    claim.rules.bundle_sha256 = "b".to_string();
    let text = r#"{"action":"Submitted the Q3 report","decision":"satisfied","evidence":[],"obligations":[{"force":"MUST","id":"CCM-OCR-AVL"}],"operator":2,"profile":{"cert_type":"Rev5","class":"B","role":"Providers"},"rules":{"bundle_sha256":"b","chain_version":7,"file_id":"6675964335526256880","rules_commit":"083137da3b3cbd88","upstream_version":"2026.07.14.01"}}"#;
    assert_eq!(
        claim_digest(&claim),
        hex(blake3::hash(text.as_bytes()).as_bytes())
    );
}

/// The sealed statement, in an envelope that another author signed.
fn signed_by_another(author: u64, seed: &[u8; 32]) -> Receipt {
    let mut receipt = sealed();
    let text = String::from_utf8(canonical_bytes(&receipt.envelope).unwrap()).unwrap();
    let envelope = aion_context::dsse::DsseEnvelope::from_json(&text).unwrap();
    let key = SigningKey::from_bytes(seed).unwrap();
    let other = aion_context::dsse::sign_envelope(
        &envelope.payload,
        &envelope.payload_type,
        AuthorId::new(author),
        &key,
    );
    receipt.envelope = parse_document(other.to_json().unwrap().as_bytes()).unwrap();
    receipt
}

#[test]
fn a_signature_that_is_not_the_operators_does_not_count() {
    let receipt = signed_by_another(3, &[9u8; 32]);
    let verdict = verify(&receipt, &registry(3, &[9u8; 32]), None).unwrap();
    assert!(!verdict.signature_valid);
    assert!(verdict.claim_bound);
    assert!(!verdict.is_valid());
    assert_eq!(
        verdict.problems,
        vec!["receipt claims operator 2 but no signature from that author verified"]
    );
    let again = signed_by_another(OPERATOR, &SEED);
    assert!(verify(&again, &registry(OPERATOR, &SEED), None).unwrap().signature_valid);
}

#[test]
fn a_receipt_of_another_version_does_not_match_the_chain() {
    let bundle = bundle();
    let verdict = verify(
        &sealed(),
        &registry(OPERATOR, &SEED),
        Some((&bundle, FILE_ID, 8)),
    )
    .unwrap();
    assert_eq!(verdict.matches_chain, Some(false));
    assert_eq!(verdict.obligations_reproduced, None);
    assert!(verdict.is_valid());
}

#[test]
fn an_edited_claim_is_found_out_without_a_chain_too() {
    let mut receipt = sealed();
    receipt.claim.action = "Submitted nothing".to_string();
    let verdict = verify(&receipt, &registry(OPERATOR, &SEED), None).unwrap();
    assert!(!verdict.claim_bound && !verdict.is_valid());
}

#[test]
fn a_policy_can_be_written_as_the_list_of_its_values() {
    let listed = canonicalize(br#"["6675964335526256880", 7, 1]"#).unwrap();
    let policy = PolicyBlock::from_value(&listed).unwrap();
    assert_eq!(policy.file_id, FILE_ID.to_string());
    assert_eq!((policy.chain_version, policy.feed_author), (7, 1));
    assert!(PolicyBlock::from_value(&canonicalize(br#"["x", 7]"#).unwrap()).is_none());
}

#[test]
fn a_statement_can_be_written_as_the_list_of_its_values() {
    let listed = canonicalize(
        br#"["t", [["action", {"blake3": "d"}]], "p",
             [["f", 1, 2], {"not-satisfied": null}, 3, 4, "n"]]"#,
    )
    .unwrap();
    let statement = Statement::from_value(&listed).unwrap();
    assert_eq!(statement.subject[0].name, "action");
    assert_eq!(statement.predicate.decision, Decision::NotSatisfied);
    assert_eq!(statement.predicate.nonce, "n");
}
