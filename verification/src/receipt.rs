//! Receipts — binding an action to the obligations in force when it was taken.
//!
//! The chain answers "what did FedRAMP require on date X". A receipt answers
//! "and here is what we did about it, signed by us, against that exact
//! version".
//!
//! Carried as a DSSE envelope over an in-toto statement, because that is what
//! the surrounding ecosystem already verifies. The load-bearing property is
//! **author binding**: the operator signs with their own registry-tracked key,
//! distinct from the feed's, and verification resolves the signer from the
//! envelope keyid — so a receipt cannot be fabricated in someone else's name.
//!
//! Evidence never enters a receipt. Only its digest does, which keeps CUI out
//! of an artifact designed to be forwarded to an agency.

use vstd::prelude::*;
use vstd::utf8::*;

use crate::bundle;
use crate::bundle::{Bundle, Payload};
use crate::canon;
use crate::error::Error;
use crate::json;
use crate::json::{Doc, Json};
use crate::obligations;
use crate::obligations::{Duty, Obligation, Party, Profile};
use crate::outside;
use crate::report;
use crate::sources;
use crate::table;
use crate::table::Table;
use crate::text;

verus! {

pub const SCHEMA: &'static str = "fedramp-aion/receipt/1";

pub const STATEMENT_TYPE: &'static str = "https://in-toto.io/Statement/v1";

pub const PREDICATE_TYPE: &'static str = "https://aion-context.dev/fedramp-aion/receipt/v1";

pub const PAYLOAD_TYPE: &'static str = "application/vnd.fedramp-aion.receipt.v1+json";

// The claim.

#[derive(Debug, Clone, PartialEq, Eq)]
pub struct EvidenceRef {
    pub name: String,
    pub blake3: String,
    pub bytes: u64,
}

#[derive(Debug, Clone, PartialEq, Eq)]
pub struct ProfileRef {
    pub role: String,
    pub class: Option<String>,
    pub cert_type: Option<String>,
    pub path: Option<String>,
}

#[derive(Debug, Clone, PartialEq, Eq)]
pub struct ObligationRef {
    pub id: String,
    pub force: String,
}

/// What the ruleset was when the action was taken.
///
/// `file_id` is a string because JCS canonicalization serializes numbers with
/// ECMAScript semantics: a u64 above 2^53 would silently round.
#[derive(Debug, Clone, PartialEq, Eq)]
pub struct RulesRef {
    pub file_id: String,
    pub chain_version: u64,
    pub bundle_sha256: String,
    pub upstream_version: String,
    pub rules_commit: String,
}

/// The human-readable half. Every field here is digest-committed in the
/// envelope, so editing any of it invalidates the receipt.
#[derive(Debug, Clone, PartialEq, Eq)]
pub struct Claim {
    pub action: String,
    pub decision: String,
    pub operator: u64,
    pub profile: ProfileRef,
    pub obligations: Vec<ObligationRef>,
    pub evidence: Vec<EvidenceRef>,
    pub rules: RulesRef,
}

#[derive(Debug)]
pub struct Receipt {
    pub schema: String,
    pub claim: Claim,
    /// The signed envelope.
    pub envelope: Doc,
}

pub struct Exhibit {
    pub name: Seq<char>,
    pub blake3: Seq<char>,
    pub bytes: u64,
}

pub struct Citation {
    pub id: Seq<char>,
    pub force: Seq<char>,
}

pub struct Edition {
    pub file_id: Seq<char>,
    pub chain_version: u64,
    pub bundle_sha256: Seq<char>,
    pub upstream_version: Seq<char>,
    pub rules_commit: Seq<char>,
}

/// What a claim says.
pub struct Testimony {
    pub action: Seq<char>,
    pub decision: Seq<char>,
    pub operator: u64,
    pub profile: Party,
    pub obligations: Seq<Citation>,
    pub evidence: Seq<Exhibit>,
    pub rules: Edition,
}

/// What a receipt holds.
pub struct Sealed {
    pub schema: Seq<char>,
    pub claim: Testimony,
    pub envelope: Json,
}

impl View for EvidenceRef {
    type V = Exhibit;

    open spec fn view(&self) -> Exhibit {
        Exhibit { name: self.name@, blake3: self.blake3@, bytes: self.bytes }
    }
}

impl View for ProfileRef {
    type V = Party;

    open spec fn view(&self) -> Party {
        Party {
            role: self.role@,
            class: text::opt_text(self.class),
            cert_type: text::opt_text(self.cert_type),
            path: text::opt_text(self.path),
        }
    }
}

impl View for ObligationRef {
    type V = Citation;

    open spec fn view(&self) -> Citation {
        Citation { id: self.id@, force: self.force@ }
    }
}

impl View for RulesRef {
    type V = Edition;

    open spec fn view(&self) -> Edition {
        Edition {
            file_id: self.file_id@,
            chain_version: self.chain_version,
            bundle_sha256: self.bundle_sha256@,
            upstream_version: self.upstream_version@,
            rules_commit: self.rules_commit@,
        }
    }
}

pub open spec fn citations(refs: Seq<ObligationRef>) -> Seq<Citation> {
    refs.map_values(|r: ObligationRef| r@)
}

pub open spec fn exhibits(refs: Seq<EvidenceRef>) -> Seq<Exhibit> {
    refs.map_values(|r: EvidenceRef| r@)
}

impl View for Claim {
    type V = Testimony;

    open spec fn view(&self) -> Testimony {
        Testimony {
            action: self.action@,
            decision: self.decision@,
            operator: self.operator,
            profile: self.profile@,
            obligations: citations(self.obligations@),
            evidence: exhibits(self.evidence@),
            rules: self.rules@,
        }
    }
}

impl View for Receipt {
    type V = Sealed;

    open spec fn view(&self) -> Sealed {
        Sealed { schema: self.schema@, claim: self.claim@, envelope: self.envelope@ }
    }
}

impl From<&Profile> for ProfileRef {
    fn from(p: &Profile) -> (r: Self) {
        ProfileRef {
            role: p.role.clone(),
            class: obligations::copy_option(&p.class),
            cert_type: obligations::copy_option(&p.cert_type),
            path: obligations::copy_option(&p.path),
        }
    }
}

impl vstd::std_specs::convert::FromSpecImpl<&Profile> for ProfileRef {
    open spec fn obeys_from_spec() -> bool {
        true
    }

    open spec fn from_spec(p: &Profile) -> ProfileRef {
        ProfileRef { role: p.role, class: p.class, cert_type: p.cert_type, path: p.path }
    }
}

impl From<&ProfileRef> for Profile {
    fn from(p: &ProfileRef) -> (r: Self) {
        Profile {
            role: p.role.clone(),
            class: obligations::copy_option(&p.class),
            cert_type: obligations::copy_option(&p.cert_type),
            path: obligations::copy_option(&p.path),
        }
    }
}

impl vstd::std_specs::convert::FromSpecImpl<&ProfileRef> for Profile {
    open spec fn obeys_from_spec() -> bool {
        true
    }

    open spec fn from_spec(p: &ProfileRef) -> Profile {
        Profile { role: p.role, class: p.class, cert_type: p.cert_type, path: p.path }
    }
}

/// What the operator is asserting about the obligation.
#[derive(Debug, Clone, Copy, PartialEq, Eq, Structural)]
pub enum Decision {
    /// Performed, and the operator asserts conformance.
    Satisfied,
    /// Deliberately not performed — the reason belongs in `action`.
    NotSatisfied,
    /// Partially met, or met by a compensating control.
    Compensating,
    /// Not yet evaluated; recorded so the gap itself is on the record.
    Unevaluated,
}

impl Decision {
    pub open spec fn word(self) -> Seq<char> {
        match self {
            Decision::Satisfied => "satisfied"@,
            Decision::NotSatisfied => "not-satisfied"@,
            Decision::Compensating => "compensating"@,
            Decision::Unevaluated => "unevaluated"@,
        }
    }

    pub fn as_word(self) -> (s: &'static str)
        ensures
            s@ == self.word(),
    {
        match self {
            Decision::Satisfied => "satisfied",
            Decision::NotSatisfied => "not-satisfied",
            Decision::Compensating => "compensating",
            Decision::Unevaluated => "unevaluated",
        }
    }
}

/// The text without hyphens and underscores.
pub open spec fn unmarked(s: Seq<char>) -> Seq<char>
    decreases s.len(),
{
    if s.len() == 0 {
        s
    } else {
        let rest = unmarked(s.drop_last());
        if s.last() == '-' || s.last() == '_' {
            rest
        } else {
            rest.push(s.last())
        }
    }
}

/// The decision that a bare word names.
pub open spec fn decision_of(bare: Seq<char>) -> Option<Decision> {
    if bare == "satisfied"@ {
        Some(Decision::Satisfied)
    } else if bare == "notsatisfied"@ {
        Some(Decision::NotSatisfied)
    } else if bare == "compensating"@ {
        Some(Decision::Compensating)
    } else if bare == "unevaluated"@ {
        Some(Decision::Unevaluated)
    } else {
        None
    }
}

pub open spec fn decision_or(r: Result<Decision, Error>) -> Result<Decision, Seq<char>> {
    match r {
        Ok(d) => Ok(d),
        Err(e) => Err(e@),
    }
}

/// The decision that a word names, whatever its case and separators.
pub open spec fn named_decision(s: Seq<char>) -> Result<Decision, Seq<char>> {
    let bare = unmarked(text::ascii_lower(s));
    match decision_of(bare) {
        Some(d) => Ok(d),
        None => Err(
            "unknown decision `"@ + bare
                + "` (satisfied, not-satisfied, compensating, unevaluated)"@,
        ),
    }
}

fn strip_marks(s: &str) -> (bare: String)
    ensures
        bare@ == unmarked(s@),
{
    let chars = text::chars_of(s);
    let mut bare = String::new();
    let mut i: usize = 0;
    assert(bare@ =~= unmarked(s@.take(0)));
    while i < chars.len()
        invariant
            i <= chars@.len(),
            chars@ == s@,
            bare@ == unmarked(s@.take(i as int)),
        decreases chars@.len() - i,
    {
        let c = chars[i];
        proof {
            assert(s@.take(i + 1).drop_last() =~= s@.take(i as int));
            assert(s@.take(i + 1).last() == c);
        }
        if c != '-' && c != '_' {
            bare.push(c);
        }
        i += 1;
    }
    assert(s@.take(s@.len() as int) =~= s@);
    bare
}

pub fn parse_decision(word: &str) -> (r: Result<Decision, Error>)
    ensures
        decision_or(r) == named_decision(word@),
{
    let bare = strip_marks(text::to_ascii_lower(word).as_str());
    if text::same_text(bare.as_str(), "satisfied") {
        Ok(Decision::Satisfied)
    } else if text::same_text(bare.as_str(), "notsatisfied") {
        Ok(Decision::NotSatisfied)
    } else if text::same_text(bare.as_str(), "compensating") {
        Ok(Decision::Compensating)
    } else if text::same_text(bare.as_str(), "unevaluated") {
        Ok(Decision::Unevaluated)
    } else {
        Err(
            Error::about(
                "unknown decision `",
                bare.as_str(),
                "` (satisfied, not-satisfied, compensating, unevaluated)",
            ),
        )
    }
}

// The texts that digests of parts are taken of: compact JSON, fields in the
// order in which the types declare them.

pub open spec fn quoted(s: Seq<char>) -> Seq<char> {
    outside::json_text(Json::Text(s))
}

fn push_quoted(out: &mut String, s: &str)
    ensures
        final(out)@ == old(out)@ + quoted(s@),
{
    out.push_str(outside::compact_text(&json::text_value(s)).as_str());
}

pub open spec fn citation_text(c: Citation) -> Seq<char> {
    "{\"id\":"@ + quoted(c.id) + ",\"force\":"@ + quoted(c.force) + "}"@
}

pub open spec fn citations_text(list: Seq<Citation>) -> Seq<char> {
    "["@ + text::join(list.map_values(|c: Citation| citation_text(c)), ","@) + "]"@
}

pub open spec fn edition_text(e: Edition) -> Seq<char> {
    "{\"file_id\":"@ + quoted(e.file_id) + ",\"chain_version\":"@ + text::decimal(
        e.chain_version as nat,
    ) + ",\"bundle_sha256\":"@ + quoted(e.bundle_sha256) + ",\"upstream_version\":"@ + quoted(
        e.upstream_version,
    ) + ",\"rules_commit\":"@ + quoted(e.rules_commit) + "}"@
}

fn citation_line(c: &ObligationRef) -> (line: String)
    ensures
        line@ == citation_text(c@),
{
    let mut out = "{\"id\":".to_owned();
    push_quoted(&mut out, c.id.as_str());
    out.push_str(",\"force\":");
    push_quoted(&mut out, c.force.as_str());
    out.push_str("}");
    out
}

fn citations_line(list: &Vec<ObligationRef>) -> (line: String)
    ensures
        line@ == citations_text(citations(list@)),
{
    let mut parts: Vec<String> = Vec::new();
    let mut i: usize = 0;
    while i < list.len()
        invariant
            i <= list@.len(),
            parts@.len() == i,
            forall|j: int| 0 <= j < i ==> (#[trigger] parts@[j])@ == citation_text(list@[j]@),
        decreases list@.len() - i,
    {
        parts.push(citation_line(&list[i]));
        i += 1;
    }
    assert(text::texts(parts@) =~= citations(list@).map_values(|c: Citation| citation_text(c)));
    let mut out = "[".to_owned();
    out.push_str(text::join_texts(&parts, ",").as_str());
    out.push_str("]");
    out
}

fn edition_line(e: &RulesRef) -> (line: String)
    ensures
        line@ == edition_text(e@),
{
    let mut out = "{\"file_id\":".to_owned();
    push_quoted(&mut out, e.file_id.as_str());
    out.push_str(",\"chain_version\":");
    out.push_str(text::decimal_text(e.chain_version).as_str());
    out.push_str(",\"bundle_sha256\":");
    push_quoted(&mut out, e.bundle_sha256.as_str());
    out.push_str(",\"upstream_version\":");
    push_quoted(&mut out, e.upstream_version.as_str());
    out.push_str(",\"rules_commit\":");
    push_quoted(&mut out, e.rules_commit.as_str());
    out.push_str("}");
    out
}

// The claim as a document.

pub open spec fn citation_json(c: Citation) -> Json {
    json::no_members().with("id"@, Json::Text(c.id)).with("force"@, Json::Text(c.force))
}

pub open spec fn exhibit_json(e: Exhibit) -> Json {
    json::no_members().with("name"@, Json::Text(e.name)).with(
        "blake3"@,
        Json::Text(e.blake3),
    ).with("bytes"@, Json::PosInt(e.bytes))
}

pub open spec fn party_json(p: Party) -> Json {
    let role = json::no_members().with("role"@, Json::Text(p.role));
    let class = json::with_optional(role, "class"@, p.class);
    let cert_type = json::with_optional(class, "cert_type"@, p.cert_type);
    json::with_optional(cert_type, "path"@, p.path)
}

pub open spec fn edition_json(e: Edition) -> Json {
    json::no_members().with("file_id"@, Json::Text(e.file_id)).with(
        "chain_version"@,
        Json::PosInt(e.chain_version),
    ).with("bundle_sha256"@, Json::Text(e.bundle_sha256)).with(
        "upstream_version"@,
        Json::Text(e.upstream_version),
    ).with("rules_commit"@, Json::Text(e.rules_commit))
}

pub open spec fn citations_json(list: Seq<Citation>) -> Seq<Json> {
    list.map_values(|c: Citation| citation_json(c))
}

pub open spec fn exhibits_json(list: Seq<Exhibit>) -> Seq<Json> {
    list.map_values(|e: Exhibit| exhibit_json(e))
}

/// Everything a claim says, as a document.
pub open spec fn claim_json(c: Testimony) -> Json {
    json::no_members().with("action"@, Json::Text(c.action)).with(
        "decision"@,
        Json::Text(c.decision),
    ).with("operator"@, Json::PosInt(c.operator)).with("profile"@, party_json(c.profile)).with(
        "obligations"@,
        Json::Array(citations_json(c.obligations)),
    ).with("evidence"@, Json::Array(exhibits_json(c.evidence))).with(
        "rules"@,
        edition_json(c.rules),
    )
}

pub open spec fn claim_text(c: Testimony) -> Seq<char> {
    outside::json_text(claim_json(c))
}

/// The claim's text reads back as the claim's document.
pub open spec fn legible(c: Testimony) -> bool {
    outside::holds_document(encode_utf8(claim_text(c)), claim_json(c))
}

impl ObligationRef {
    pub fn to_value(&self) -> (v: Doc)
        ensures
            v@ == citation_json(self@),
    {
        let mut members = bundle::empty_object();
        members.set("id", json::text_value(self.id.as_str()));
        members.set("force", json::text_value(self.force.as_str()));
        Doc::Object(members)
    }
}

impl EvidenceRef {
    pub fn to_value(&self) -> (v: Doc)
        ensures
            v@ == exhibit_json(self@),
    {
        let mut members = bundle::empty_object();
        members.set("name", json::text_value(self.name.as_str()));
        members.set("blake3", json::text_value(self.blake3.as_str()));
        members.set("bytes", json::number_value(self.bytes));
        Doc::Object(members)
    }
}

impl ProfileRef {
    pub fn to_value(&self) -> (v: Doc)
        ensures
            v@ == party_json(self@),
    {
        let mut members = bundle::empty_object();
        members.set("role", json::text_value(self.role.as_str()));
        json::set_optional(&mut members, "class", &self.class);
        json::set_optional(&mut members, "cert_type", &self.cert_type);
        json::set_optional(&mut members, "path", &self.path);
        Doc::Object(members)
    }
}

impl RulesRef {
    pub fn to_value(&self) -> (v: Doc)
        ensures
            v@ == edition_json(self@),
    {
        let mut members = bundle::empty_object();
        members.set("file_id", json::text_value(self.file_id.as_str()));
        members.set("chain_version", json::number_value(self.chain_version));
        members.set("bundle_sha256", json::text_value(self.bundle_sha256.as_str()));
        members.set("upstream_version", json::text_value(self.upstream_version.as_str()));
        members.set("rules_commit", json::text_value(self.rules_commit.as_str()));
        Doc::Object(members)
    }
}

fn citation_values(list: &Vec<ObligationRef>) -> (v: Doc)
    ensures
        v@ == Json::Array(citations_json(citations(list@))),
{
    broadcast use json::lemma_array_json;

    let mut items: Vec<Doc> = Vec::new();
    let mut i: usize = 0;
    while i < list.len()
        invariant
            i <= list@.len(),
            items@.len() == i,
            forall|j: int| 0 <= j < i ==> (#[trigger] items@[j])@ == citation_json(list@[j]@),
        decreases list@.len() - i,
    {
        items.push(list[i].to_value());
        i += 1;
    }
    assert(json::jsons(items@) =~= citations_json(citations(list@)));
    Doc::Array(items)
}

fn exhibit_values(list: &Vec<EvidenceRef>) -> (v: Doc)
    ensures
        v@ == Json::Array(exhibits_json(exhibits(list@))),
{
    broadcast use json::lemma_array_json;

    let mut items: Vec<Doc> = Vec::new();
    let mut i: usize = 0;
    while i < list.len()
        invariant
            i <= list@.len(),
            items@.len() == i,
            forall|j: int| 0 <= j < i ==> (#[trigger] items@[j])@ == exhibit_json(list@[j]@),
        decreases list@.len() - i,
    {
        items.push(list[i].to_value());
        i += 1;
    }
    assert(json::jsons(items@) =~= exhibits_json(exhibits(list@)));
    Doc::Array(items)
}

impl Claim {
    /// Everything the claim says, as a document.
    pub fn to_value(&self) -> (v: Doc)
        ensures
            v@ == claim_json(self@),
    {
        let mut members = bundle::empty_object();
        members.set("action", json::text_value(self.action.as_str()));
        members.set("decision", json::text_value(self.decision.as_str()));
        members.set("operator", json::number_value(self.operator));
        members.set("profile", self.profile.to_value());
        members.set("obligations", citation_values(&self.obligations));
        members.set("evidence", exhibit_values(&self.evidence));
        members.set("rules", self.rules.to_value());
        Doc::Object(members)
    }
}

proof fn lemma_optional_printable(v: Json, key: Seq<char>, s: Option<Seq<char>>, depth: nat)
    requires
        v is Object,
        outside::printable(v, depth),
        depth > 0,
    ensures
        outside::printable(json::with_optional(v, key, s), depth),
        json::with_optional(v, key, s) is Object,
{
    match s {
        Some(s) => {
            outside::lemma_with_printable(v, key, Json::Text(s), depth);
        },
        None => {},
    }
}

proof fn lemma_parts_printable(c: Testimony, d: nat)
    requires
        d >= 2,
    ensures
        outside::printable(party_json(c.profile), d),
        outside::printable(edition_json(c.rules), d),
        outside::printable(Json::Array(citations_json(c.obligations)), d),
        outside::printable(Json::Array(exhibits_json(c.evidence)), d),
{
    let v0 = json::no_members();
    let p = c.profile;
    let p1 = v0.with("role"@, Json::Text(p.role));
    let p2 = json::with_optional(p1, "class"@, p.class);
    let p3 = json::with_optional(p2, "cert_type"@, p.cert_type);
    outside::lemma_with_printable(v0, "role"@, Json::Text(p.role), d);
    lemma_optional_printable(p1, "class"@, p.class, d);
    lemma_optional_printable(p2, "cert_type"@, p.cert_type, d);
    lemma_optional_printable(p3, "path"@, p.path, d);
    let e = c.rules;
    let e1 = v0.with("file_id"@, Json::Text(e.file_id));
    let e2 = e1.with("chain_version"@, Json::PosInt(e.chain_version));
    let e3 = e2.with("bundle_sha256"@, Json::Text(e.bundle_sha256));
    let e4 = e3.with("upstream_version"@, Json::Text(e.upstream_version));
    outside::lemma_with_printable(v0, "file_id"@, Json::Text(e.file_id), d);
    outside::lemma_with_printable(e1, "chain_version"@, Json::PosInt(e.chain_version), d);
    outside::lemma_with_printable(e2, "bundle_sha256"@, Json::Text(e.bundle_sha256), d);
    outside::lemma_with_printable(e3, "upstream_version"@, Json::Text(e.upstream_version), d);
    outside::lemma_with_printable(e4, "rules_commit"@, Json::Text(e.rules_commit), d);
    let inner = (d - 1) as nat;
    let cited = citations_json(c.obligations);
    assert forall|i: int| 0 <= i < cited.len() implies outside::printable(
        #[trigger] cited[i],
        inner,
    ) by {
        let o = c.obligations[i];
        outside::lemma_with_printable(v0, "id"@, Json::Text(o.id), inner);
        outside::lemma_with_printable(
            v0.with("id"@, Json::Text(o.id)),
            "force"@,
            Json::Text(o.force),
            inner,
        );
    }
    let shown = exhibits_json(c.evidence);
    assert forall|i: int| 0 <= i < shown.len() implies outside::printable(
        #[trigger] shown[i],
        inner,
    ) by {
        let x = c.evidence[i];
        let x1 = v0.with("name"@, Json::Text(x.name));
        let x2 = x1.with("blake3"@, Json::Text(x.blake3));
        outside::lemma_with_printable(v0, "name"@, Json::Text(x.name), inner);
        outside::lemma_with_printable(x1, "blake3"@, Json::Text(x.blake3), inner);
        outside::lemma_with_printable(x2, "bytes"@, Json::PosInt(x.bytes), inner);
    }
}

proof fn lemma_claim_printable(c: Testimony)
    ensures
        outside::printable(claim_json(c), outside::NESTING as nat),
{
    let depth = outside::NESTING as nat;
    lemma_parts_printable(c, (depth - 1) as nat);
    let v0 = json::no_members();
    let v1 = v0.with("action"@, Json::Text(c.action));
    let v2 = v1.with("decision"@, Json::Text(c.decision));
    let v3 = v2.with("operator"@, Json::PosInt(c.operator));
    let v4 = v3.with("profile"@, party_json(c.profile));
    let v5 = v4.with("obligations"@, Json::Array(citations_json(c.obligations)));
    let v6 = v5.with("evidence"@, Json::Array(exhibits_json(c.evidence)));
    outside::lemma_with_printable(v0, "action"@, Json::Text(c.action), depth);
    outside::lemma_with_printable(v1, "decision"@, Json::Text(c.decision), depth);
    outside::lemma_with_printable(v2, "operator"@, Json::PosInt(c.operator), depth);
    outside::lemma_with_printable(v3, "profile"@, party_json(c.profile), depth);
    outside::lemma_with_printable(
        v4,
        "obligations"@,
        Json::Array(citations_json(c.obligations)),
        depth,
    );
    outside::lemma_with_printable(v5, "evidence"@, Json::Array(exhibits_json(c.evidence)), depth);
    outside::lemma_with_printable(v6, "rules"@, edition_json(c.rules), depth);
}

// Digests.

/// The BLAKE3 digest of a text, in hexadecimal.
pub open spec fn text_digest(s: Seq<char>) -> Seq<char> {
    canon::hex_of(outside::blake3(encode_utf8(s)))
}

fn digest_of(s: &str) -> (hex: String)
    ensures
        hex@ == text_digest(s@),
{
    canon::hex(outside::blake3_digest(s.as_bytes()).as_slice())
}

/// The digest of the obligation set, over ids and force only. Statement text
/// is excluded deliberately: an editorial rewording should not invalidate an
/// operator's receipt, but a change in what binds them must.
pub fn obligations_digest(list: &Vec<ObligationRef>) -> (hex: String)
    ensures
        hex@ == text_digest(citations_text(citations(list@))),
{
    digest_of(citations_line(list).as_str())
}

pub fn rules_digest(rules: &RulesRef) -> (hex: String)
    ensures
        hex@ == text_digest(edition_text(rules@)),
{
    digest_of(edition_line(rules).as_str())
}

/// The digest of everything a claim says.
pub fn claim_digest(claim: &Claim) -> (hex: String)
    ensures
        hex@ == text_digest(claim_text(claim@)),
        legible(claim@),
{
    proof {
        lemma_claim_printable(claim@);
    }
    digest_of(outside::compact_text(&claim.to_value()).as_str())
}

/// What a receipt keeps of a piece of evidence: its name, digest and size.
pub fn evidence_of(name: &str, content: &[u8]) -> (e: EvidenceRef)
    ensures
        e@ == (Exhibit {
            name: name@,
            blake3: canon::hex_of(outside::blake3(content@)),
            bytes: content@.len() as u64,
        }),
{
    EvidenceRef {
        name: name.to_owned(),
        blake3: canon::hex(outside::blake3_digest(content).as_slice()),
        bytes: content.len() as u64,
    }
}

// The signed statement.

#[derive(Debug)]
pub struct SubjectEntry {
    pub name: String,
    pub digest: Table<String>,
}

#[derive(Debug, Clone, PartialEq, Eq)]
pub struct PolicyBlock {
    /// String for the same reason as `RulesRef::file_id`.
    pub file_id: String,
    pub chain_version: u64,
    pub feed_author: u64,
}

#[derive(Debug, Clone, PartialEq, Eq)]
pub struct Predicate {
    pub policy: PolicyBlock,
    pub decision: Decision,
    pub operator: u64,
    pub receipt_version: u64,
    pub nonce: String,
}

#[derive(Debug)]
pub struct Statement {
    pub type_uri: String,
    pub subject: Vec<SubjectEntry>,
    pub predicate_type: String,
    pub predicate: Predicate,
}

pub struct Subject {
    pub name: Seq<char>,
    pub digest: Seq<(Seq<char>, Seq<char>)>,
}

pub struct Policy {
    pub file_id: Seq<char>,
    pub chain_version: u64,
    pub feed_author: u64,
}

pub struct Terms {
    pub policy: Policy,
    pub decision: Decision,
    pub operator: u64,
    pub receipt_version: u64,
    pub nonce: Seq<char>,
}

/// What a statement says.
pub struct Attestation {
    pub type_uri: Seq<char>,
    pub subject: Seq<Subject>,
    pub predicate_type: Seq<char>,
    pub predicate: Terms,
}

impl View for SubjectEntry {
    type V = Subject;

    open spec fn view(&self) -> Subject {
        Subject { name: self.name@, digest: sources::text_map(self.digest@) }
    }
}

impl View for PolicyBlock {
    type V = Policy;

    open spec fn view(&self) -> Policy {
        Policy {
            file_id: self.file_id@,
            chain_version: self.chain_version,
            feed_author: self.feed_author,
        }
    }
}

impl View for Predicate {
    type V = Terms;

    open spec fn view(&self) -> Terms {
        Terms {
            policy: self.policy@,
            decision: self.decision,
            operator: self.operator,
            receipt_version: self.receipt_version,
            nonce: self.nonce@,
        }
    }
}

pub open spec fn subjects(entries: Seq<SubjectEntry>) -> Seq<Subject> {
    entries.map_values(|e: SubjectEntry| e@)
}

impl View for Statement {
    type V = Attestation;

    open spec fn view(&self) -> Attestation {
        Attestation {
            type_uri: self.type_uri@,
            subject: subjects(self.subject@),
            predicate_type: self.predicate_type@,
            predicate: self.predicate@,
        }
    }
}

// As JSON.

pub open spec fn subject_json(s: Subject) -> Json {
    json::no_members().with("name"@, Json::Text(s.name)).with(
        "digest"@,
        bundle::texts_json(s.digest),
    )
}

pub open spec fn policy_json(p: Policy) -> Json {
    json::no_members().with("file_id"@, Json::Text(p.file_id)).with(
        "chain_version"@,
        Json::PosInt(p.chain_version),
    ).with("feed_author"@, Json::PosInt(p.feed_author))
}

pub open spec fn terms_json(t: Terms) -> Json {
    json::no_members().with("policy"@, policy_json(t.policy)).with(
        "decision"@,
        Json::Text(t.decision.word()),
    ).with("operator"@, Json::PosInt(t.operator)).with(
        "receipt_version"@,
        Json::PosInt(t.receipt_version),
    ).with("nonce"@, Json::Text(t.nonce))
}

pub open spec fn subjects_json(list: Seq<Subject>) -> Seq<Json> {
    list.map_values(|s: Subject| subject_json(s))
}

pub open spec fn statement_json(a: Attestation) -> Json {
    json::no_members().with("_type"@, Json::Text(a.type_uri)).with(
        "subject"@,
        Json::Array(subjects_json(a.subject)),
    ).with("predicateType"@, Json::Text(a.predicate_type)).with(
        "predicate"@,
        terms_json(a.predicate),
    )
}

impl SubjectEntry {
    pub fn to_value(&self) -> (v: Doc)
        ensures
            v@ == subject_json(self@),
    {
        let mut members = bundle::empty_object();
        members.set("name", json::text_value(self.name.as_str()));
        members.set("digest", bundle::texts_value(&self.digest));
        Doc::Object(members)
    }
}

impl PolicyBlock {
    pub fn to_value(&self) -> (v: Doc)
        ensures
            v@ == policy_json(self@),
    {
        let mut members = bundle::empty_object();
        members.set("file_id", json::text_value(self.file_id.as_str()));
        members.set("chain_version", json::number_value(self.chain_version));
        members.set("feed_author", json::number_value(self.feed_author));
        Doc::Object(members)
    }
}

impl Predicate {
    pub fn to_value(&self) -> (v: Doc)
        ensures
            v@ == terms_json(self@),
    {
        let mut members = bundle::empty_object();
        members.set("policy", self.policy.to_value());
        members.set("decision", json::text_value(self.decision.as_word()));
        members.set("operator", json::number_value(self.operator));
        members.set("receipt_version", json::number_value(self.receipt_version));
        members.set("nonce", json::text_value(self.nonce.as_str()));
        Doc::Object(members)
    }
}

impl Statement {
    pub fn to_value(&self) -> (v: Doc)
        ensures
            v@ == statement_json(self@),
    {
        broadcast use json::lemma_array_json;

        let mut list: Vec<Doc> = Vec::new();
        let mut i: usize = 0;
        while i < self.subject.len()
            invariant
                i <= self.subject@.len(),
                list@.len() == i,
                forall|j: int| 0 <= j < i ==> (#[trigger] list@[j])@ == subject_json(
                    self.subject@[j]@,
                ),
            decreases self.subject@.len() - i,
        {
            list.push(self.subject[i].to_value());
            i += 1;
        }
        assert(json::jsons(list@) =~= subjects_json(self@.subject));
        let mut members = bundle::empty_object();
        members.set("_type", json::text_value(self.type_uri.as_str()));
        members.set("subject", Doc::Array(list));
        members.set("predicateType", json::text_value(self.predicate_type.as_str()));
        members.set("predicate", self.predicate.to_value());
        Doc::Object(members)
    }
}

// From JSON.

pub open spec fn subject_names() -> Seq<Seq<char>> {
    seq![
        "name"@,
        "digest"@,
    ]
}

/// The subject that a document describes.
pub open spec fn subject_in(v: Json) -> Option<Subject> {
    subject_members(json::named(v, subject_names()))
}

pub open spec fn subject_members(v: Json) -> Option<Subject> {
    match (v.text_at("name"@), v.object_at("digest"@)) {
        (Some(name), Some(m)) => match sources::all_texts(m) {
            Some(digest) => Some(Subject { name, digest }),
            None => None,
        },
        _ => None,
    }
}

pub open spec fn subjects_in(list: Seq<Json>) -> Option<Seq<Subject>>
    decreases list.len(),
{
    if list.len() == 0 {
        Some(Seq::empty())
    } else {
        match (subjects_in(list.drop_last()), subject_in(list.last())) {
            (Some(rest), Some(s)) => Some(rest.push(s)),
            _ => None,
        }
    }
}

pub open spec fn policy_names() -> Seq<Seq<char>> {
    seq![
        "file_id"@,
        "chain_version"@,
        "feed_author"@,
    ]
}

/// The policy that a document describes.
pub open spec fn policy_in(v: Json) -> Option<Policy> {
    policy_members(json::named(v, policy_names()))
}

pub open spec fn policy_members(v: Json) -> Option<Policy> {
    match (v.text_at("file_id"@), v.number_at("chain_version"@), v.number_at("feed_author"@)) {
        (Some(file_id), Some(chain_version), Some(feed_author)) => Some(
            Policy { file_id, chain_version, feed_author },
        ),
        _ => None,
    }
}

/// The decision that a statement's word stands for.
pub open spec fn decision_named(s: Seq<char>) -> Option<Decision> {
    if s == "satisfied"@ {
        Some(Decision::Satisfied)
    } else if s == "not-satisfied"@ {
        Some(Decision::NotSatisfied)
    } else if s == "compensating"@ {
        Some(Decision::Compensating)
    } else if s == "unevaluated"@ {
        Some(Decision::Unevaluated)
    } else {
        None
    }
}

/// The decision in a statement: its word, or an object of that one member with
/// nothing under it.
pub open spec fn decision_in(v: Option<Json>) -> Option<Decision> {
    match v {
        Some(Json::Text(s)) => decision_named(s),
        Some(Json::Object(m)) => if m.len() == 1 && m[0].1 is Null {
            decision_named(m[0].0)
        } else {
            None
        },
        _ => None,
    }
}

pub open spec fn nested_policy(v: Json) -> Option<Policy> {
    match v.get("policy"@) {
        Some(p) => policy_in(p),
        None => None,
    }
}

pub open spec fn terms_names() -> Seq<Seq<char>> {
    seq![
        "policy"@,
        "decision"@,
        "operator"@,
        "receipt_version"@,
        "nonce"@,
    ]
}

/// The terms that a document describes.
pub open spec fn terms_in(v: Json) -> Option<Terms> {
    terms_members(json::named(v, terms_names()))
}

pub open spec fn terms_members(v: Json) -> Option<Terms> {
    match (
        nested_policy(v),
        decision_in(v.get("decision"@)),
        v.number_at("operator"@),
        v.number_at("receipt_version"@),
        v.text_at("nonce"@),
    ) {
        (
            Some(policy),
            Some(decision),
            Some(operator),
            Some(receipt_version),
            Some(nonce),
        ) => Some(Terms { policy, decision, operator, receipt_version, nonce }),
        _ => None,
    }
}

pub open spec fn nested_terms(v: Json) -> Option<Terms> {
    match v.get("predicate"@) {
        Some(p) => terms_in(p),
        None => None,
    }
}

pub open spec fn nested_subjects(v: Json) -> Option<Seq<Subject>> {
    match v.array_at("subject"@) {
        Some(list) => subjects_in(list),
        None => None,
    }
}

pub open spec fn statement_names() -> Seq<Seq<char>> {
    seq![
        "_type"@,
        "subject"@,
        "predicateType"@,
        "predicate"@,
    ]
}

/// The statement that a document makes.
pub open spec fn statement_in(v: Json) -> Option<Attestation> {
    statement_members(json::named(v, statement_names()))
}

pub open spec fn statement_members(v: Json) -> Option<Attestation> {
    match (
        v.text_at("_type"@),
        nested_subjects(v),
        v.text_at("predicateType"@),
        nested_terms(v),
    ) {
        (Some(type_uri), Some(subject), Some(predicate_type), Some(predicate)) => Some(
            Attestation { type_uri, subject, predicate_type, predicate },
        ),
        _ => None,
    }
}

fn read_subject(v: &Doc) -> (r: Option<SubjectEntry>)
    ensures
        match r {
            Some(s) => subject_in(v@) == Some(s@),
            None => subject_in(v@) is None,
        },
{
    let names = ["name", "digest"];
    assert(json::strs(names@) =~= subject_names());
    match json::name_values(v, &names) {
        Some(record) => read_subject_members(&record),
        None => read_subject_members(v),
    }
}

fn read_subject_members(v: &Doc) -> (r: Option<SubjectEntry>)
    ensures
        match r {
            Some(s) => subject_members(v@) == Some(s@),
            None => subject_members(v@) is None,
        },
{
    match (json::text_member(v, "name"), json::object_member(v, "digest")) {
        (Some(name), Some(m)) => match sources::read_texts(m) {
            Some(digest) => Some(SubjectEntry { name: name.to_owned(), digest }),
            None => None,
        },
        _ => None,
    }
}

proof fn lemma_not_subjects(list: Seq<Json>, n: int)
    requires
        0 <= n <= list.len(),
        subjects_in(list.take(n)) is None,
    ensures
        subjects_in(list) is None,
    decreases list.len() - n,
{
    if n < list.len() {
        assert(list.take(n + 1).drop_last() =~= list.take(n));
        lemma_not_subjects(list, n + 1);
    } else {
        assert(list.take(n) =~= list);
    }
}

fn read_subjects(list: &Vec<Doc>) -> (r: Option<Vec<SubjectEntry>>)
    ensures
        match r {
            Some(s) => subjects_in(json::jsons(list@)) == Some(subjects(s@)),
            None => subjects_in(json::jsons(list@)) is None,
        },
{
    let ghost all = json::jsons(list@);
    let mut found: Vec<SubjectEntry> = Vec::new();
    let mut i: usize = 0;
    assert(subjects(found@) =~= Seq::<Subject>::empty());
    while i < list.len()
        invariant
            i <= list@.len(),
            all == json::jsons(list@),
            subjects_in(all.take(i as int)) == Some(subjects(found@)),
        decreases list@.len() - i,
    {
        proof {
            assert(all.take(i + 1).drop_last() =~= all.take(i as int));
            assert(all.take(i + 1).last() == list@[i as int]@);
        }
        match read_subject(&list[i]) {
            Some(entry) => {
                assert(subjects(found@.push(entry)) =~= subjects(found@).push(entry@));
                found.push(entry);
            },
            None => {
                proof {
                    lemma_not_subjects(all, i + 1);
                }
                return None;
            },
        }
        i += 1;
    }
    assert(all.take(all.len() as int) =~= all);
    Some(found)
}

impl PolicyBlock {
    pub fn from_value(v: &Doc) -> (r: Option<PolicyBlock>)
        ensures
            match r {
                Some(p) => policy_in(v@) == Some(p@),
                None => policy_in(v@) is None,
            },
    {
        let names = ["file_id", "chain_version", "feed_author"];
        assert(json::strs(names@) =~= policy_names());
        match json::name_values(v, &names) {
            Some(record) => Self::from_members(&record),
            None => Self::from_members(v),
        }
    }

    fn from_members(v: &Doc) -> (r: Option<PolicyBlock>)
        ensures
            match r {
                Some(p) => policy_members(v@) == Some(p@),
                None => policy_members(v@) is None,
            },
    {
        match (
            json::text_member(v, "file_id"),
            json::number_member(v, "chain_version"),
            json::number_member(v, "feed_author"),
        ) {
            (Some(file_id), Some(chain_version), Some(feed_author)) => Some(
                PolicyBlock { file_id: file_id.to_owned(), chain_version, feed_author },
            ),
            _ => None,
        }
    }
}

fn read_decision(v: Option<&Doc>) -> (r: Option<Decision>)
    ensures
        r == decision_in(json::opt_json(v)),
{
    match v {
        Some(Doc::Text(s)) => name_decision(s.as_str()),
        Some(Doc::Object(m)) => {
            proof {
                json::lemma_members(*m);
            }
            if m.len() != 1 {
                return None;
            }
            match m.value(0) {
                Doc::Null => name_decision(m.key(0)),
                _ => None,
            }
        },
        _ => None,
    }
}

fn name_decision(s: &str) -> (r: Option<Decision>)
    ensures
        r == decision_named(s@),
{
    if text::same_text(s, "satisfied") {
        Some(Decision::Satisfied)
    } else if text::same_text(s, "not-satisfied") {
        Some(Decision::NotSatisfied)
    } else if text::same_text(s, "compensating") {
        Some(Decision::Compensating)
    } else if text::same_text(s, "unevaluated") {
        Some(Decision::Unevaluated)
    } else {
        None
    }
}

fn read_predicate(v: &Doc) -> (r: Option<Predicate>)
    ensures
        match r {
            Some(p) => terms_in(v@) == Some(p@),
            None => terms_in(v@) is None,
        },
{
    let names = ["policy", "decision", "operator", "receipt_version", "nonce"];
    assert(json::strs(names@) =~= terms_names());
    match json::name_values(v, &names) {
        Some(record) => read_predicate_members(&record),
        None => read_predicate_members(v),
    }
}

fn read_predicate_members(v: &Doc) -> (r: Option<Predicate>)
    ensures
        match r {
            Some(p) => terms_members(v@) == Some(p@),
            None => terms_members(v@) is None,
        },
{
    let policy = match v.get("policy") {
        Some(p) => PolicyBlock::from_value(p),
        None => None,
    };
    match (
        policy,
        read_decision(v.get("decision")),
        json::number_member(v, "operator"),
        json::number_member(v, "receipt_version"),
        json::text_member(v, "nonce"),
    ) {
        (
            Some(policy),
            Some(decision),
            Some(operator),
            Some(receipt_version),
            Some(nonce),
        ) => Some(
            Predicate { policy, decision, operator, receipt_version, nonce: nonce.to_owned() },
        ),
        _ => None,
    }
}

impl Statement {
    pub fn from_value(v: &Doc) -> (r: Option<Statement>)
        ensures
            match r {
                Some(s) => statement_in(v@) == Some(s@),
                None => statement_in(v@) is None,
            },
    {
        let names = ["_type", "subject", "predicateType", "predicate"];
        assert(json::strs(names@) =~= statement_names());
        match json::name_values(v, &names) {
            Some(record) => Self::from_members(&record),
            None => Self::from_members(v),
        }
    }

    fn from_members(v: &Doc) -> (r: Option<Statement>)
        ensures
            match r {
                Some(s) => statement_members(v@) == Some(s@),
                None => statement_members(v@) is None,
            },
    {
        let subject = match json::array_member(v, "subject") {
            Some(list) => read_subjects(list),
            None => None,
        };
        let predicate = match v.get("predicate") {
            Some(p) => read_predicate(p),
            None => None,
        };
        match (
            json::text_member(v, "_type"),
            subject,
            json::text_member(v, "predicateType"),
            predicate,
        ) {
            (Some(type_uri), Some(subject), Some(predicate_type), Some(predicate)) => Some(
                Statement {
                    type_uri: type_uri.to_owned(),
                    subject,
                    predicate_type: predicate_type.to_owned(),
                    predicate,
                },
            ),
            _ => None,
        }
    }
}

proof fn lemma_subject_read(s: Subject)
    ensures
        subject_in(subject_json(s)) == Some(s),
{
    reveal_strlit("name");
    reveal_strlit("digest");
    assert("name"@.len() != "digest"@.len());
    let v0 = json::no_members();
    let v1 = v0.with("name"@, Json::Text(s.name));
    json::lemma_with(v0, "name"@, Json::Text(s.name));
    json::lemma_with(v1, "digest"@, bundle::texts_json(s.digest));
    bundle::lemma_texts_read(s.digest);
}

proof fn lemma_subjects_read(list: Seq<Subject>)
    ensures
        subjects_in(subjects_json(list)) == Some(list),
    decreases list.len(),
{
    if list.len() > 0 {
        lemma_subjects_read(list.drop_last());
        lemma_subject_read(list.last());
        assert(subjects_json(list).drop_last() =~= subjects_json(list.drop_last()));
        assert(list.drop_last().push(list.last()) =~= list);
    } else {
        assert(list =~= Seq::empty());
    }
}

proof fn lemma_policy_read(p: Policy)
    ensures
        policy_in(policy_json(p)) == Some(p),
{
    reveal_strlit("file_id");
    reveal_strlit("chain_version");
    reveal_strlit("feed_author");
    let v0 = json::no_members();
    let v1 = v0.with("file_id"@, Json::Text(p.file_id));
    let v2 = v1.with("chain_version"@, Json::PosInt(p.chain_version));
    json::lemma_with(v0, "file_id"@, Json::Text(p.file_id));
    json::lemma_with(v1, "chain_version"@, Json::PosInt(p.chain_version));
    json::lemma_with(v2, "feed_author"@, Json::PosInt(p.feed_author));
}

proof fn lemma_decision_read(d: Decision)
    ensures
        decision_in(Some(Json::Text(d.word()))) == Some(d),
{
    reveal_strlit("satisfied");
    reveal_strlit("not-satisfied");
    reveal_strlit("compensating");
    reveal_strlit("unevaluated");
    assert("satisfied"@.len() == 9);
    assert("not-satisfied"@.len() == 13);
    assert("compensating"@.len() == 12);
    assert("unevaluated"@.len() == 11);
}

proof fn lemma_terms_read(t: Terms)
    ensures
        terms_in(terms_json(t)) == Some(t),
{
    reveal_strlit("policy");
    reveal_strlit("decision");
    reveal_strlit("operator");
    reveal_strlit("receipt_version");
    reveal_strlit("nonce");
    assert("decision"@[0] != "operator"@[0]);
    let v0 = json::no_members();
    let v1 = v0.with("policy"@, policy_json(t.policy));
    let v2 = v1.with("decision"@, Json::Text(t.decision.word()));
    let v3 = v2.with("operator"@, Json::PosInt(t.operator));
    let v4 = v3.with("receipt_version"@, Json::PosInt(t.receipt_version));
    json::lemma_with(v0, "policy"@, policy_json(t.policy));
    json::lemma_with(v1, "decision"@, Json::Text(t.decision.word()));
    json::lemma_with(v2, "operator"@, Json::PosInt(t.operator));
    json::lemma_with(v3, "receipt_version"@, Json::PosInt(t.receipt_version));
    json::lemma_with(v4, "nonce"@, Json::Text(t.nonce));
    lemma_policy_read(t.policy);
    lemma_decision_read(t.decision);
}

/// A statement written as a document reads back as itself.
pub proof fn law_statement_reads_back(a: Attestation)
    ensures
        statement_in(statement_json(a)) == Some(a),
{
    reveal_strlit("_type");
    reveal_strlit("subject");
    reveal_strlit("predicateType");
    reveal_strlit("predicate");
    let v0 = json::no_members();
    let v1 = v0.with("_type"@, Json::Text(a.type_uri));
    let v2 = v1.with("subject"@, Json::Array(subjects_json(a.subject)));
    let v3 = v2.with("predicateType"@, Json::Text(a.predicate_type));
    json::lemma_with(v0, "_type"@, Json::Text(a.type_uri));
    json::lemma_with(v1, "subject"@, Json::Array(subjects_json(a.subject)));
    json::lemma_with(v2, "predicateType"@, Json::Text(a.predicate_type));
    json::lemma_with(v3, "predicate"@, terms_json(a.predicate));
    lemma_subjects_read(a.subject);
    lemma_terms_read(a.predicate);
}

/// A number that canonical JSON carries exactly.
pub open spec fn exact(n: u64) -> bool {
    n <= 0x1f_ffff_ffff_ffff
}

/// Every number of a statement is one that canonical JSON carries exactly. The
/// file id is a text, and need not be.
pub open spec fn exact_terms(t: Terms) -> bool {
    exact(t.policy.chain_version) && exact(t.policy.feed_author) && exact(t.operator) && exact(
        t.receipt_version,
    )
}

proof fn lemma_subject_plain(s: Subject, depth: nat)
    requires
        table::ordered(s.digest),
        depth >= 2,
    ensures
        outside::plain(subject_json(s), depth),
{
    let f = |t: Seq<char>| Json::Text(t);
    let v0 = json::no_members();
    let v1 = v0.with("name"@, Json::Text(s.name));
    table::lemma_mapped_ordered(s.digest, f);
    reveal_with_fuel(outside::plain, 2);
    assert(outside::plain(bundle::texts_json(s.digest), (depth - 1) as nat));
    outside::lemma_with_plain(v0, "name"@, Json::Text(s.name), depth);
    outside::lemma_with_plain(v1, "digest"@, bundle::texts_json(s.digest), depth);
}

proof fn lemma_terms_plain(t: Terms, depth: nat)
    requires
        exact_terms(t),
        depth >= 2,
    ensures
        outside::plain(terms_json(t), depth),
{
    let p = t.policy;
    let d = (depth - 1) as nat;
    let p0 = json::no_members();
    let p1 = p0.with("file_id"@, Json::Text(p.file_id));
    let p2 = p1.with("chain_version"@, Json::PosInt(p.chain_version));
    outside::lemma_with_plain(p0, "file_id"@, Json::Text(p.file_id), d);
    outside::lemma_with_plain(p1, "chain_version"@, Json::PosInt(p.chain_version), d);
    outside::lemma_with_plain(p2, "feed_author"@, Json::PosInt(p.feed_author), d);
    let v1 = p0.with("policy"@, policy_json(p));
    let v2 = v1.with("decision"@, Json::Text(t.decision.word()));
    let v3 = v2.with("operator"@, Json::PosInt(t.operator));
    let v4 = v3.with("receipt_version"@, Json::PosInt(t.receipt_version));
    outside::lemma_with_plain(p0, "policy"@, policy_json(p), depth);
    outside::lemma_with_plain(v1, "decision"@, Json::Text(t.decision.word()), depth);
    outside::lemma_with_plain(v2, "operator"@, Json::PosInt(t.operator), depth);
    outside::lemma_with_plain(v3, "receipt_version"@, Json::PosInt(t.receipt_version), depth);
    outside::lemma_with_plain(v4, "nonce"@, Json::Text(t.nonce), depth);
}

/// A statement with exact numbers is a document that canonical JSON carries
/// without loss.
pub proof fn law_statement_is_plain(a: Attestation)
    requires
        exact_terms(a.predicate),
        forall|i: int| 0 <= i < a.subject.len() ==> table::ordered((#[trigger] a.subject[i]).digest),
    ensures
        outside::plain(statement_json(a), outside::NESTING as nat),
{
    let depth = outside::NESTING as nat;
    let list = subjects_json(a.subject);
    let d = (depth - 2) as nat;
    assert forall|i: int| 0 <= i < list.len() implies outside::plain(#[trigger] list[i], d) by {
        lemma_subject_plain(a.subject[i], d);
    }
    lemma_terms_plain(a.predicate, (depth - 1) as nat);
    let v0 = json::no_members();
    let v1 = v0.with("_type"@, Json::Text(a.type_uri));
    let v2 = v1.with("subject"@, Json::Array(list));
    let v3 = v2.with("predicateType"@, Json::Text(a.predicate_type));
    outside::lemma_with_plain(v0, "_type"@, Json::Text(a.type_uri), depth);
    outside::lemma_with_plain(v1, "subject"@, Json::Array(list), depth);
    outside::lemma_with_plain(v2, "predicateType"@, Json::Text(a.predicate_type), depth);
    outside::lemma_with_plain(v3, "predicate"@, terms_json(a.predicate), depth);
}

// Sealing.

/// A subject with one digest.
pub open spec fn subject_of(name: Seq<char>, hex: Seq<char>) -> Subject {
    Subject { name, digest: seq![("blake3"@, hex)] }
}

pub open spec fn exhibit_subjects(list: Seq<Exhibit>) -> Seq<Subject> {
    list.map_values(|e: Exhibit| subject_of("evidence/"@ + e.name, e.blake3))
}

/// What a claim commits to: its action, its obligations, its ruleset, the
/// claim as a whole, and each piece of evidence.
pub open spec fn claim_subjects(c: Testimony) -> Seq<Subject> {
    seq![
        subject_of("action"@, text_digest(c.action)),
        subject_of("obligations"@, text_digest(citations_text(c.obligations))),
        subject_of("rules"@, text_digest(edition_text(c.rules))),
        subject_of("claim"@, text_digest(claim_text(c))),
    ] + exhibit_subjects(c.evidence)
}

pub struct Inputs<'a> {
    pub action: &'a str,
    pub decision: Decision,
    pub operator: u64,
    pub receipt_version: u64,
    pub profile: &'a Profile,
    pub obligations: &'a [Obligation],
    pub evidence: &'a [EvidenceRef],
    pub bundle: &'a Bundle,
    pub file_id: u64,
    pub chain_version: u64,
}

/// What a receipt is to say.
pub struct Brief {
    pub action: Seq<char>,
    pub decision: Decision,
    pub operator: u64,
    pub receipt_version: u64,
    pub profile: Party,
    pub obligations: Seq<Duty>,
    pub evidence: Seq<Exhibit>,
    pub bundle: Payload,
    pub file_id: u64,
    pub chain_version: u64,
}

impl<'a> View for Inputs<'a> {
    type V = Brief;

    open spec fn view(&self) -> Brief {
        Brief {
            action: self.action@,
            decision: self.decision,
            operator: self.operator,
            receipt_version: self.receipt_version,
            profile: self.profile@,
            obligations: obligations::duties(self.obligations@),
            evidence: exhibits(self.evidence@),
            bundle: self.bundle@,
            file_id: self.file_id,
            chain_version: self.chain_version,
        }
    }
}

pub open spec fn cited(duties: Seq<Duty>) -> Seq<Citation> {
    duties.map_values(|d: Duty| Citation { id: d.id, force: d.force })
}

pub open spec fn commit_of(b: Payload) -> Seq<char> {
    match table::lookup(b.sources, sources::RULES@) {
        Some(r) => r.provenance.commit,
        None => ""@,
    }
}

/// The claim of a receipt against a bundle with the given digest.
pub open spec fn claimed(b: Brief, bundle_sha256: Seq<char>) -> Testimony {
    Testimony {
        action: b.action,
        decision: b.decision.word(),
        operator: b.operator,
        profile: b.profile,
        obligations: cited(b.obligations),
        evidence: b.evidence,
        rules: Edition {
            file_id: text::decimal(b.file_id as nat),
            chain_version: b.chain_version,
            bundle_sha256,
            upstream_version: b.bundle.upstream_version,
            rules_commit: commit_of(b.bundle),
        },
    }
}

/// The statement that is signed for a claim.
pub open spec fn attested(
    b: Brief,
    claim: Testimony,
    feed_author: u64,
    nonce: Seq<u8>,
) -> Attestation {
    Attestation {
        type_uri: STATEMENT_TYPE@,
        subject: claim_subjects(claim),
        predicate_type: PREDICATE_TYPE@,
        predicate: Terms {
            policy: Policy {
                file_id: text::decimal(b.file_id as nat),
                chain_version: b.chain_version,
                feed_author,
            },
            decision: b.decision,
            operator: b.operator,
            receipt_version: b.receipt_version,
            nonce: canon::hex_of(nonce),
        },
    }
}

/// The receipt with the given nonce, signed with the key of the given seed.
pub open spec fn sealed(b: Brief, seed: Seq<u8>, feed_author: u64, nonce: Seq<u8>) -> Result<
    Sealed,
    Seq<char>,
> {
    match bundle::bundle_digest(b.bundle) {
        Ok(digest) => {
            let claim = claimed(b, digest);
            match canon::canonical_text(statement_json(attested(b, claim, feed_author, nonce))) {
                Ok(payload) => match outside::dsse_envelope(
                    payload,
                    PAYLOAD_TYPE@,
                    b.operator,
                    seed,
                ) {
                    Ok(envelope) => Ok(Sealed { schema: SCHEMA@, claim, envelope }),
                    Err(e) => Err(e),
                },
                Err(e) => Err(e),
            }
        },
        Err(e) => Err(e),
    }
}

pub open spec fn sealed_or(r: Result<Receipt, Error>) -> Result<Sealed, Seq<char>> {
    match r {
        Ok(r) => Ok(r@),
        Err(e) => Err(e@),
    }
}

fn subject(name: &str, hex: &str) -> (s: SubjectEntry)
    ensures
        s@ == subject_of(name@, hex@),
{
    let mut digest: Table<String> = Table::new();
    digest.insert("blake3".to_owned(), hex.to_owned());
    assert(sources::text_map(digest@) =~= seq![("blake3"@, hex@)]);
    SubjectEntry { name: name.to_owned(), digest }
}

fn evidence_name(name: &str) -> (s: String)
    ensures
        s@ == "evidence/"@ + name@,
{
    let mut s = "evidence/".to_owned();
    s.push_str(name);
    s
}

fn subjects_for(claim: &Claim) -> (list: Vec<SubjectEntry>)
    ensures
        subjects(list@) == claim_subjects(claim@),
{
    let mut list: Vec<SubjectEntry> = vec![
        subject("action", digest_of(claim.action.as_str()).as_str()),
        subject("obligations", obligations_digest(&claim.obligations).as_str()),
        subject("rules", rules_digest(&claim.rules).as_str()),
        subject("claim", claim_digest(claim).as_str()),
    ];
    let ghost head = subjects(list@);
    let ghost all = exhibit_subjects(claim@.evidence);
    assert(claim_subjects(claim@) =~= head + all);
    let mut i: usize = 0;
    assert(head + all.take(0) =~= head);
    while i < claim.evidence.len()
        invariant
            i <= claim.evidence@.len(),
            all == exhibit_subjects(exhibits(claim.evidence@)),
            subjects(list@) == head + all.take(i as int),
        decreases claim.evidence@.len() - i,
    {
        let e = &claim.evidence[i];
        let entry = subject(evidence_name(e.name.as_str()).as_str(), e.blake3.as_str());
        proof {
            assert(all[i as int] == entry@);
            assert(subjects(list@.push(entry)) =~= subjects(list@).push(entry@));
            assert(head + all.take(i + 1) =~= (head + all.take(i as int)).push(entry@));
        }
        list.push(entry);
        i += 1;
    }
    assert(all.take(all.len() as int) =~= all);
    list
}

fn cite(list: &[Obligation]) -> (refs: Vec<ObligationRef>)
    ensures
        citations(refs@) == cited(obligations::duties(list@)),
{
    let mut refs: Vec<ObligationRef> = Vec::new();
    let mut i: usize = 0;
    while i < list.len()
        invariant
            i <= list@.len(),
            refs@.len() == i,
            forall|j: int|
                0 <= j < i ==> (#[trigger] refs@[j])@ == (Citation {
                    id: list@[j].id@,
                    force: list@[j].force@,
                }),
        decreases list@.len() - i,
    {
        refs.push(ObligationRef { id: list[i].id.clone(), force: list[i].force.clone() });
        i += 1;
    }
    assert(citations(refs@) =~= cited(obligations::duties(list@)));
    refs
}

fn copy_evidence(list: &[EvidenceRef]) -> (copy: Vec<EvidenceRef>)
    ensures
        exhibits(copy@) == exhibits(list@),
{
    let mut copy: Vec<EvidenceRef> = Vec::new();
    let mut i: usize = 0;
    while i < list.len()
        invariant
            i <= list@.len(),
            copy@.len() == i,
            forall|j: int| 0 <= j < i ==> (#[trigger] copy@[j])@ == list@[j]@,
        decreases list@.len() - i,
    {
        let e = &list[i];
        copy.push(
            EvidenceRef { name: e.name.clone(), blake3: e.blake3.clone(), bytes: e.bytes },
        );
        i += 1;
    }
    assert(exhibits(copy@) =~= exhibits(list@));
    copy
}

fn rules_commit(bundle: &Bundle) -> (commit: String)
    ensures
        commit@ == commit_of(bundle@),
{
    proof {
        table::lemma_mapped_lookup(
            bundle.sources@,
            sources::RULES@,
            |r: bundle::SourceRecord| r@,
        );
    }
    match bundle.sources.get(sources::RULES) {
        Some(record) => record.provenance.commit.clone(),
        None => "".to_owned(),
    }
}

/// The claim of a receipt against a bundle with the given digest.
pub fn make_claim(inputs: &Inputs, bundle_sha256: String) -> (claim: Claim)
    ensures
        claim@ == claimed(inputs@, bundle_sha256@),
        decision_in(Some(Json::Text(claim.decision@))) == Some(inputs.decision),
        claim.action@ == inputs.action@,
        claim.operator == inputs.operator,
        claim.obligations@.len() == inputs.obligations@.len(),
        claim.evidence@.len() == inputs.evidence@.len(),
        claim.rules.chain_version == inputs.chain_version,
        claim.rules.bundle_sha256@ == bundle_sha256@,
        claim.rules.upstream_version@ == inputs.bundle.upstream_version@,
{
    proof {
        lemma_decision_read(inputs.decision);
    }
    let claim = Claim {
        action: inputs.action.to_owned(),
        decision: inputs.decision.as_word().to_owned(),
        operator: inputs.operator,
        profile: ProfileRef::from(inputs.profile),
        obligations: cite(inputs.obligations),
        evidence: copy_evidence(inputs.evidence),
        rules: RulesRef {
            file_id: text::decimal_text(inputs.file_id),
            chain_version: inputs.chain_version,
            bundle_sha256,
            upstream_version: inputs.bundle.upstream_version.clone(),
            rules_commit: rules_commit(inputs.bundle),
        },
    };
    proof {
        assert(claim@.obligations.len() == inputs@.obligations.len());
        assert(claim@.evidence.len() == inputs@.evidence.len());
    }
    claim
}

/// The statement that is signed for a claim.
pub fn make_statement(inputs: &Inputs, claim: &Claim, feed_author: u64, nonce: &[u8]) -> (s:
    Statement)
    ensures
        s@ == attested(inputs@, claim@, feed_author, nonce@),
{
    Statement {
        type_uri: STATEMENT_TYPE.to_owned(),
        subject: subjects_for(claim),
        predicate_type: PREDICATE_TYPE.to_owned(),
        predicate: Predicate {
            policy: PolicyBlock {
                file_id: text::decimal_text(inputs.file_id),
                chain_version: inputs.chain_version,
                feed_author,
            },
            decision: inputs.decision,
            operator: inputs.operator,
            receipt_version: inputs.receipt_version,
            nonce: canon::hex(nonce),
        },
    }
}

/// Every number that goes into a receipt's statement is one that canonical
/// JSON carries exactly.
pub open spec fn exact_brief(b: Brief, feed_author: u64) -> bool {
    exact(b.chain_version) && exact(feed_author) && exact(b.operator) && exact(b.receipt_version)
}

/// Seal a receipt with the operator's own key, given as its seed, and a nonce.
/// The payload is canonical, so an independent implementation can rebuild it
/// and verify the signature. Where the numbers are exact, a key of the right
/// length seals whatever bundle has a digest, and what is sealed can be opened
/// again.
pub fn seal(inputs: &Inputs, seed: &[u8], feed_author: u64, nonce: &[u8]) -> (r: Result<
    Receipt,
    Error,
>)
    ensures
        sealed_or(r) == sealed(inputs@, seed@, feed_author, nonce@),
        exact_brief(inputs@, feed_author) ==> (r is Ok <==> seed@.len() == 32
            && bundle::bundle_digest(inputs@.bundle) is Ok),
        exact_brief(inputs@, feed_author) && r is Ok ==> enclosed(r->Ok_0@) == Ok::<
            Attestation,
            Seq<char>,
        >(attested(inputs@, r->Ok_0@.claim, feed_author, nonce@)),
        r matches Ok(sealed) ==> {
            &&& decision_in(Some(Json::Text(sealed.claim.decision@))) == Some(inputs.decision)
            &&& sealed.claim.action@ == inputs.action@
            &&& sealed.claim.operator == inputs.operator
            &&& sealed.claim.obligations@.len() == inputs.obligations@.len()
            &&& sealed.claim.evidence@.len() == inputs.evidence@.len()
            &&& sealed.claim.rules.chain_version == inputs.chain_version
        },
        exact_brief(inputs@, feed_author) && r is Ok ==> (enclosed(r->Ok_0@) matches Ok(a)
            && a.predicate.decision == inputs.decision && a.predicate.operator == inputs.operator
            && a.predicate.receipt_version == inputs.receipt_version
            && a.predicate.policy.chain_version == inputs.chain_version
            && a.predicate.policy.feed_author == feed_author),
{
    let bundle_sha256 = match inputs.bundle.digest() {
        Ok(digest) => digest,
        Err(e) => {
            return Err(e);
        },
    };
    let claim = make_claim(inputs, bundle_sha256);
    let statement = make_statement(inputs, &claim, feed_author, nonce);
    proof {
        if exact_brief(inputs@, feed_author) {
            assert forall|i: int| 0 <= i < statement@.subject.len() implies table::ordered(
                (#[trigger] statement@.subject[i]).digest,
            ) by {
                assert(statement@.subject[i].digest.len() == 1);
            }
            law_statement_is_plain(statement@);
            law_statement_reads_back(statement@);
        }
    }
    match canon::canonical_bytes(&statement.to_value()) {
        Ok(payload) => match outside::sign_envelope(
            payload.as_slice(),
            PAYLOAD_TYPE,
            inputs.operator,
            seed,
        ) {
            Ok(envelope) => Ok(Receipt { schema: SCHEMA.to_owned(), claim, envelope }),
            Err(e) => Err(Error { message: e }),
        },
        Err(e) => Err(e),
    }
}

/// The eight bytes of a number, least significant first.
pub open spec fn le_bytes(n: u64) -> Seq<u8> {
    Seq::new(8, |i: int| (n >> ((8 * i) as u64)) as u8)
}

fn push_le(out: &mut Vec<u8>, n: u64)
    ensures
        final(out)@ == old(out)@ + le_bytes(n),
{
    let ghost start = out@;
    let mut i: u64 = 0;
    while i < 8
        invariant
            i <= 8,
            out@.len() == start.len() + i,
            forall|j: int| 0 <= j < start.len() ==> out@[j] == start[j],
            forall|j: int| 0 <= j < i ==> out@[start.len() + j] == le_bytes(n)[j],
        decreases 8 - i,
    {
        let byte: u8 = (n >> (8 * i)) as u8;
        out.push(byte);
        i += 1;
    }
    assert(out@ =~= start + le_bytes(n));
}

/// Sixteen bytes out of two numbers.
pub fn nonce_bytes(first: u64, second: u64) -> (bytes: Vec<u8>)
    ensures
        bytes@ == le_bytes(first) + le_bytes(second),
        bytes@.len() == 16,
{
    let mut bytes: Vec<u8> = Vec::new();
    push_le(&mut bytes, first);
    push_le(&mut bytes, second);
    assert(bytes@ =~= le_bytes(first) + le_bytes(second));
    bytes
}

/// Uniqueness is what matters here; the signature provides authenticity.
pub fn nonce() -> (bytes: Vec<u8>)
    ensures
        bytes@.len() == 16,
{
    let first = std::collections::hash_map::RandomState::new();
    let second = std::collections::hash_map::RandomState::new();
    nonce_bytes(outside::seed_hash(&first), outside::seed_hash(&second))
}

/// What sealing a brief gives, whatever the nonce: the brief's claim under the
/// signer's seal, which opens again to the statement that was sealed.
pub open spec fn created(
    b: Brief,
    seed: Seq<u8>,
    feed_author: u64,
    r: Result<Sealed, Seq<char>>,
) -> bool {
    &&& exists|nonce: Seq<u8>|
        nonce.len() == 16 && r == #[trigger] sealed(b, seed, feed_author, nonce) && (exact_brief(
            b,
            feed_author,
        ) && r is Ok ==> enclosed(r->Ok_0) == Ok::<Attestation, Seq<char>>(
            attested(b, r->Ok_0.claim, feed_author, nonce),
        ))
    &&& exact_brief(b, feed_author) ==> (r is Ok <==> seed.len() == 32 && bundle::bundle_digest(
        b.bundle,
    ) is Ok)
}

/// Seal a receipt with the operator's own key, given as its seed.
pub fn create(inputs: &Inputs, seed: &[u8], feed_author: u64) -> (r: Result<Receipt, Error>)
    ensures
        created(inputs@, seed@, feed_author, sealed_or(r)),
        r matches Ok(sealed) ==> {
            &&& decision_in(Some(Json::Text(sealed.claim.decision@))) == Some(inputs.decision)
            &&& sealed.claim.action@ == inputs.action@
            &&& sealed.claim.operator == inputs.operator
            &&& sealed.claim.obligations@.len() == inputs.obligations@.len()
            &&& sealed.claim.evidence@.len() == inputs.evidence@.len()
            &&& sealed.claim.rules.chain_version == inputs.chain_version
        },
        exact_brief(inputs@, feed_author) && r is Ok ==> (enclosed(r->Ok_0@) matches Ok(a)
            && a.predicate.decision == inputs.decision && a.predicate.operator == inputs.operator
            && a.predicate.receipt_version == inputs.receipt_version
            && a.predicate.policy.chain_version == inputs.chain_version
            && a.predicate.policy.feed_author == feed_author),
{
    let fresh = nonce();
    seal(inputs, seed, feed_author, fresh.as_slice())
}

// Verifying.

#[derive(Debug, Clone, PartialEq, Eq)]
pub struct Verdict {
    pub signature_valid: bool,
    pub claim_bound: bool,
    pub matches_chain: Option<bool>,
    pub obligations_reproduced: Option<bool>,
    pub operator: u64,
    pub problems: Vec<String>,
}

/// What a verdict says.
pub struct Judgement {
    pub signature_valid: bool,
    pub claim_bound: bool,
    pub matches_chain: Option<bool>,
    pub obligations_reproduced: Option<bool>,
    pub operator: u64,
    pub problems: Seq<Seq<char>>,
}

impl View for Verdict {
    type V = Judgement;

    open spec fn view(&self) -> Judgement {
        Judgement {
            signature_valid: self.signature_valid,
            claim_bound: self.claim_bound,
            matches_chain: self.matches_chain,
            obligations_reproduced: self.obligations_reproduced,
            operator: self.operator,
            problems: text::texts(self.problems@),
        }
    }
}

impl Verdict {
    pub fn is_valid(&self) -> (valid: bool)
        ensures
            valid == (self@.problems.len() == 0),
    {
        self.problems.len() == 0
    }
}

/// The first subject of a name.
pub open spec fn first_named(list: Seq<Subject>, name: Seq<char>) -> Option<Subject>
    decreases list.len(),
{
    if list.len() == 0 {
        None
    } else if list[0].name == name {
        Some(list[0])
    } else {
        first_named(list.drop_first(), name)
    }
}

/// The digest that a statement commits to under a name.
pub open spec fn committed(list: Seq<Subject>, name: Seq<char>) -> Option<Seq<char>> {
    match first_named(list, name) {
        Some(s) => if s.digest.len() > 0 {
            Some(s.digest[0].1)
        } else {
            None
        },
        None => None,
    }
}

pub open spec fn field_problems(list: Seq<Subject>, name: Seq<char>, want: Seq<char>) -> Seq<
    Seq<char>,
> {
    match committed(list, name) {
        Some(got) => if got == want {
            Seq::empty()
        } else {
            seq!["claim field `"@ + name + "` does not match the signed digest"@]
        },
        None => seq!["receipt commits no digest for `"@ + name + "`"@],
    }
}

pub open spec fn exhibit_problems(list: Seq<Subject>, evidence: Seq<Exhibit>) -> Seq<Seq<char>>
    decreases evidence.len(),
{
    if evidence.len() == 0 {
        Seq::empty()
    } else {
        let rest = exhibit_problems(list, evidence.drop_last());
        let e = evidence.last();
        if committed(list, "evidence/"@ + e.name) == Some(e.blake3) {
            rest
        } else {
            rest.push("evidence `"@ + e.name + "` is not the signed digest"@)
        }
    }
}

/// Every digest of the plaintext claim that is not the one signed.
pub open spec fn binding_problems(c: Testimony, list: Seq<Subject>) -> Seq<Seq<char>> {
    field_problems(list, "action"@, text_digest(c.action)) + field_problems(
        list,
        "obligations"@,
        text_digest(citations_text(c.obligations)),
    ) + field_problems(list, "rules"@, text_digest(edition_text(c.rules))) + field_problems(
        list,
        "claim"@,
        text_digest(claim_text(c)),
    ) + exhibit_problems(list, c.evidence)
}

/// Whether one of the verified key ids is the author's.
pub open spec fn signed_by(keyids: Seq<Seq<char>>, author: u64) -> bool {
    exists|i: int| 0 <= i < keyids.len() && outside::keyid_author(#[trigger] keyids[i]) == Some(author)
}

/// Whether the envelope verified, with a signature of the given author among
/// those that did.
pub open spec fn signed_as(signers: Result<Seq<Seq<char>>, Seq<char>>, author: u64) -> bool {
    signers matches Ok(keyids) && signed_by(keyids, author)
}

pub open spec fn signature_problems(
    signers: Result<Seq<Seq<char>>, Seq<char>>,
    operator: u64,
) -> Seq<Seq<char>> {
    match signers {
        Ok(keyids) => if signed_by(keyids, operator) {
            Seq::empty()
        } else {
            seq![
                "receipt claims operator "@ + text::decimal(operator as nat)
                    + " but no signature from that author verified"@,
            ]
        },
        Err(e) => seq!["signature: "@ + e],
    }
}

pub open spec fn operator_problems(claimed: u64, signed: u64) -> Seq<Seq<char>> {
    if claimed == signed {
        Seq::empty()
    } else {
        seq![
            "claim names operator "@ + text::decimal(claimed as nat)
                + " but the signed statement names "@ + text::decimal(signed as nat),
        ]
    }
}

/// Whether every cited obligation is one the ruleset has for the profile, with
/// the force it has there.
pub open spec fn reproduced(cited: Seq<Citation>, derived: Seq<Duty>) -> bool {
    forall|i: int| 0 <= i < cited.len() ==> owed(#[trigger] cited[i], derived)
}

pub open spec fn owed(c: Citation, derived: Seq<Duty>) -> bool {
    exists|j: int|
        0 <= j < derived.len() && (#[trigger] derived[j]).id == c.id && derived[j].force == c.force
}

/// What holding a receipt against a chain finds.
pub struct Crosscheck {
    pub matches: bool,
    pub reproduced: Option<bool>,
    pub problems: Seq<Seq<char>>,
}

pub open spec fn when(cond: bool, problem: Seq<char>) -> Seq<Seq<char>> {
    if cond {
        seq![problem]
    } else {
        Seq::empty()
    }
}

/// Same policy, same bundle, and — for the version the chain still carries —
/// the same obligations the signed rules actually produce for that profile.
/// Only the version the chain currently holds can be re-derived; earlier
/// versions are not in its payload.
pub open spec fn crosschecked(
    c: Testimony,
    t: Terms,
    b: Payload,
    bundle_sha256: Seq<char>,
    file_id: u64,
    chain_version: u64,
) -> Crosscheck {
    let id = text::decimal(file_id as nat);
    let same_policy = t.policy.file_id == id && c.rules.file_id == id && c.rules.chain_version
        == t.policy.chain_version;
    let same_digest = bundle_sha256 == c.rules.bundle_sha256;
    let same_version = c.rules.chain_version == chain_version;
    let matches = same_policy && same_version && same_digest;
    let found = when(!same_policy, "receipt was issued against a different chain"@);
    if !same_version {
        Crosscheck { matches, reproduced: None, problems: found }
    } else {
        let found = found + when(
            !same_digest,
            "receipt cites this chain version but a different bundle digest"@,
        );
        match table::lookup(b.content, sources::RULES@) {
            None => Crosscheck { matches, reproduced: None, problems: found },
            Some(rules) => {
                let consistent = reproduced(
                    c.obligations,
                    obligations::selected(rules, c.profile),
                );
                Crosscheck {
                    matches,
                    reproduced: Some(consistent),
                    problems: found + when(
                        !consistent,
                        "claimed obligations do not match what the signed rules say for this profile"@,
                    ),
                }
            },
        }
    }
}

/// The chain a receipt is held against: its payload, its file id, its version.
pub struct Anchor {
    pub bundle: Payload,
    pub file_id: u64,
    pub chain_version: u64,
}

/// The verdict on a receipt with the given statement, whose envelope verified
/// as `signers` says.
pub open spec fn judged(
    c: Testimony,
    a: Attestation,
    signers: Result<Seq<Seq<char>>, Seq<char>>,
    chain: Option<Anchor>,
) -> Result<Judgement, Seq<char>> {
    let bound = binding_problems(c, a.subject);
    let found = Judgement {
        signature_valid: signed_as(signers, a.predicate.operator),
        claim_bound: bound.len() == 0,
        matches_chain: None,
        obligations_reproduced: None,
        operator: c.operator,
        problems: signature_problems(signers, a.predicate.operator) + bound + operator_problems(
            c.operator,
            a.predicate.operator,
        ),
    };
    match chain {
        None => Ok(found),
        Some(chain) => match bundle::bundle_digest(chain.bundle) {
            Err(e) => Err(e),
            Ok(digest) => {
                let check = crosschecked(
                    c,
                    a.predicate,
                    chain.bundle,
                    digest,
                    chain.file_id,
                    chain.chain_version,
                );
                Ok(
                    Judgement {
                        matches_chain: Some(check.matches),
                        obligations_reproduced: check.reproduced,
                        problems: found.problems + check.problems,
                        ..found
                    },
                )
            },
        },
    }
}

/// The statement in a receipt's envelope.
pub open spec fn enclosed(r: Sealed) -> Result<Attestation, Seq<char>> {
    if r.schema != SCHEMA@ {
        Err("receipt schema is "@ + r.schema + ", expected "@ + SCHEMA@)
    } else {
        match outside::envelope_payload(outside::json_text(r.envelope)) {
            Err(e) => Err("receipt envelope is unreadable: "@ + e),
            Ok(payload) => match opened(payload) {
                None => Err("receipt payload is not a fedramp-aion statement"@),
                Some(a) => if a.predicate_type != PREDICATE_TYPE@ {
                    Err(
                        "receipt predicate type is "@ + a.predicate_type + ", expected "@
                            + PREDICATE_TYPE@,
                    )
                } else {
                    Ok(a)
                },
            },
        }
    }
}

/// The statement in a payload.
pub open spec fn opened(payload: Seq<u8>) -> Option<Attestation> {
    match outside::json_parse(payload) {
        Ok(v) => statement_in(v),
        Err(_) => None,
    }
}

/// The epoch is resolved at the version the receipt cites, so a key valid then
/// still verifies after a later rotation.
pub open spec fn epoch(a: Attestation) -> u64 {
    if a.predicate.policy.chain_version < 1 {
        1
    } else {
        a.predicate.policy.chain_version
    }
}

/// The verdict on a receipt, by a registry and, where one is held, a chain.
pub open spec fn verified(r: Sealed, registry: Seq<char>, chain: Option<Anchor>) -> Result<
    Judgement,
    Seq<char>,
> {
    match enclosed(r) {
        Ok(a) => judged(
            r.claim,
            a,
            outside::envelope_signers(outside::json_text(r.envelope), registry, epoch(a)),
            chain,
        ),
        Err(e) => Err(e),
    }
}

pub open spec fn judgement_or(r: Result<Verdict, Error>) -> Result<Judgement, Seq<char>> {
    match r {
        Ok(v) => Ok(v@),
        Err(e) => Err(e@),
    }
}

pub open spec fn statement_or(r: Result<Statement, Error>) -> Result<Attestation, Seq<char>> {
    match r {
        Ok(s) => Ok(s@),
        Err(e) => Err(e@),
    }
}

pub open spec fn anchor(chain: Option<(&Bundle, u64, u64)>) -> Option<Anchor> {
    match chain {
        Some(c) => Some(Anchor { bundle: c.0@, file_id: c.1, chain_version: c.2 }),
        None => None,
    }
}

proof fn lemma_first_named(list: Seq<Subject>, name: Seq<char>, i: int)
    requires
        0 <= i <= list.len(),
        forall|j: int| 0 <= j < i ==> (#[trigger] list[j]).name != name,
    ensures
        i == list.len() ==> first_named(list, name) is None,
        i < list.len() && list[i].name == name ==> first_named(list, name) == Some(list[i]),
    decreases list.len(),
{
    if i > 0 {
        assert(list[0].name != name);
        assert forall|j: int| 0 <= j < i - 1 implies (#[trigger] list.drop_first()[j]).name
            != name by {
            assert(list[j + 1].name != name);
        }
        lemma_first_named(list.drop_first(), name, i - 1);
    }
}

fn subject_digest<'a>(list: &'a Vec<SubjectEntry>, name: &str) -> (found: Option<&'a String>)
    ensures
        match found {
            Some(s) => committed(subjects(list@), name@) == Some(s@),
            None => committed(subjects(list@), name@) is None,
        },
{
    let ghost all = subjects(list@);
    let mut i: usize = 0;
    while i < list.len()
        invariant
            i <= list@.len(),
            all == subjects(list@),
            forall|j: int| 0 <= j < i ==> (#[trigger] all[j]).name != name@,
        decreases list@.len() - i,
    {
        assert(all[i as int] == list@[i as int]@);
        if text::same_text(list[i].name.as_str(), name) {
            proof {
                lemma_first_named(all, name@, i as int);
                assert(all[i as int].digest.len() == list@[i as int].digest@.len());
            }
            if list[i].digest.len() > 0 {
                return Some(list[i].digest.value(0));
            }
            return None;
        }
        i += 1;
    }
    proof {
        lemma_first_named(all, name@, i as int);
    }
    None
}

fn push_problem(problems: &mut Vec<String>, problem: String)
    ensures
        text::texts(final(problems)@) == text::texts(old(problems)@) + seq![problem@],
{
    assert(text::texts(problems@.push(problem)) =~= text::texts(problems@) + seq![problem@]);
    problems.push(problem);
}

fn check_field(
    list: &Vec<SubjectEntry>,
    name: &str,
    want: &str,
    problems: &mut Vec<String>,
)
    ensures
        text::texts(final(problems)@) == text::texts(old(problems)@) + field_problems(
            subjects(list@),
            name@,
            want@,
        ),
{
    match subject_digest(list, name) {
        Some(got) => {
            if text::same_text(got.as_str(), want) {
                assert(text::texts(problems@) + Seq::<Seq<char>>::empty() =~= text::texts(
                    problems@,
                ));
            } else {
                let mut line = "claim field `".to_owned();
                line.push_str(name);
                line.push_str("` does not match the signed digest");
                push_problem(problems, line);
            }
        },
        None => {
            let mut line = "receipt commits no digest for `".to_owned();
            line.push_str(name);
            line.push_str("`");
            push_problem(problems, line);
        },
    }
}

fn check_evidence(
    list: &Vec<SubjectEntry>,
    evidence: &Vec<EvidenceRef>,
    problems: &mut Vec<String>,
)
    ensures
        text::texts(final(problems)@) == text::texts(old(problems)@) + exhibit_problems(
            subjects(list@),
            exhibits(evidence@),
        ),
{
    let ghost start = text::texts(problems@);
    let ghost all = exhibits(evidence@);
    let ghost subs = subjects(list@);
    let mut i: usize = 0;
    assert(start + exhibit_problems(subs, all.take(0)) =~= start);
    while i < evidence.len()
        invariant
            i <= evidence@.len(),
            all == exhibits(evidence@),
            subs == subjects(list@),
            text::texts(problems@) == start + exhibit_problems(subs, all.take(i as int)),
        decreases evidence@.len() - i,
    {
        let e = &evidence[i];
        let ghost done = exhibit_problems(subs, all.take(i as int));
        proof {
            assert(all.take(i + 1).drop_last() =~= all.take(i as int));
            assert(all.take(i + 1).last() == e@);
        }
        let name = evidence_name(e.name.as_str());
        let same = match subject_digest(list, name.as_str()) {
            Some(got) => text::same_text(got.as_str(), e.blake3.as_str()),
            None => false,
        };
        if !same {
            let mut line = "evidence `".to_owned();
            line.push_str(e.name.as_str());
            line.push_str("` is not the signed digest");
            assert(start + done.push(line@) =~= start + done + seq![line@]);
            push_problem(problems, line);
        }
        i += 1;
    }
    assert(all.take(all.len() as int) =~= all);
}

/// Recompute every digest from the plaintext claim and compare it with what
/// was signed. This is what stops a claim from being edited after sealing.
pub fn check_claim_binding(
    claim: &Claim,
    list: &Vec<SubjectEntry>,
    problems: &mut Vec<String>,
) -> (bound: bool)
    ensures
        text::texts(final(problems)@) == text::texts(old(problems)@) + binding_problems(
            claim@,
            subjects(list@),
        ),
        bound == (binding_problems(claim@, subjects(list@)).len() == 0),
        legible(claim@),
{
    let ghost start = text::texts(problems@);
    let before: usize = problems.len();
    assert(before == start.len());
    check_field(list, "action", digest_of(claim.action.as_str()).as_str(), problems);
    check_field(list, "obligations", obligations_digest(&claim.obligations).as_str(), problems);
    check_field(list, "rules", rules_digest(&claim.rules).as_str(), problems);
    check_field(list, "claim", claim_digest(claim).as_str(), problems);
    check_evidence(list, &claim.evidence, problems);
    proof {
        assert(text::texts(problems@) =~= start + binding_problems(claim@, subjects(list@)));
        assert(text::texts(problems@).len() == problems@.len());
    }
    problems.len() == before
}

fn has_author(keyids: &Vec<String>, author: u64) -> (yes: bool)
    ensures
        yes == signed_by(text::texts(keyids@), author),
{
    let ghost all = text::texts(keyids@);
    let mut i: usize = 0;
    while i < keyids.len()
        invariant
            i <= keyids@.len(),
            all == text::texts(keyids@),
            forall|j: int| 0 <= j < i ==> outside::keyid_author(#[trigger] all[j]) != Some(author),
        decreases keyids@.len() - i,
    {
        assert(all[i as int] == keyids@[i as int]@);
        match outside::author_from_keyid(keyids[i].as_str()) {
            Some(found) => {
                if found == author {
                    return true;
                }
            },
            None => {},
        }
        i += 1;
    }
    false
}

fn is_signed_as(signers: &Result<Vec<String>, String>, author: u64) -> (yes: bool)
    ensures
        yes == signed_as(outside::texts_or(*signers), author),
{
    match signers {
        Ok(keyids) => has_author(keyids, author),
        Err(_) => false,
    }
}

fn check_signature(signers: &Result<Vec<String>, String>, operator: u64) -> (problems: Vec<String>)
    ensures
        text::texts(problems@) == signature_problems(outside::texts_or(*signers), operator),
{
    let mut problems: Vec<String> = Vec::new();
    match signers {
        Ok(keyids) => {
            if !has_author(keyids, operator) {
                let mut line = "receipt claims operator ".to_owned();
                line.push_str(text::decimal_text(operator).as_str());
                line.push_str(" but no signature from that author verified");
                push_problem(&mut problems, line);
            }
        },
        Err(e) => {
            let mut line = "signature: ".to_owned();
            line.push_str(e.as_str());
            push_problem(&mut problems, line);
        },
    }
    assert(text::texts(problems@) =~= signature_problems(outside::texts_or(*signers), operator));
    problems
}

fn is_owed(c: &ObligationRef, derived: &Vec<Obligation>) -> (yes: bool)
    ensures
        yes == owed(c@, obligations::duties(derived@)),
{
    let ghost all = obligations::duties(derived@);
    let mut j: usize = 0;
    while j < derived.len()
        invariant
            j <= derived@.len(),
            all == obligations::duties(derived@),
            forall|i: int|
                0 <= i < j ==> !((#[trigger] all[i]).id == c@.id && all[i].force == c@.force),
        decreases derived@.len() - j,
    {
        assert(all[j as int] == derived@[j as int]@);
        if text::same_text(derived[j].id.as_str(), c.id.as_str()) && text::same_text(
            derived[j].force.as_str(),
            c.force.as_str(),
        ) {
            return true;
        }
        j += 1;
    }
    false
}

fn all_owed(list: &Vec<ObligationRef>, derived: &Vec<Obligation>) -> (yes: bool)
    ensures
        yes == reproduced(citations(list@), obligations::duties(derived@)),
{
    let ghost all = citations(list@);
    let mut i: usize = 0;
    while i < list.len()
        invariant
            i <= list@.len(),
            all == citations(list@),
            forall|j: int| 0 <= j < i ==> owed(#[trigger] all[j], obligations::duties(derived@)),
        decreases list@.len() - i,
    {
        assert(all[i as int] == list@[i as int]@);
        if !is_owed(&list[i], derived) {
            assert(!owed(all[i as int], obligations::duties(derived@)));
            return false;
        }
        i += 1;
    }
    true
}

/// Cross-check a receipt against a chain we hold: same policy, same bundle,
/// and — for the version the chain still carries — the same obligations the
/// signed rules actually produce for that profile.
fn check_chain(
    claim: &Claim,
    predicate: &Predicate,
    bundle: &Bundle,
    bundle_sha256: &str,
    file_id: u64,
    chain_version: u64,
    verdict: &mut Verdict,
)
    ensures
        ({
            let check = crosschecked(
                claim@,
                predicate@,
                bundle@,
                bundle_sha256@,
                file_id,
                chain_version,
            );
            final(verdict)@ == Judgement {
                matches_chain: Some(check.matches),
                obligations_reproduced: if check.reproduced is Some {
                    check.reproduced
                } else {
                    old(verdict)@.obligations_reproduced
                },
                problems: old(verdict)@.problems + check.problems,
                ..old(verdict)@
            }
        }),
{
    let ghost start = text::texts(verdict.problems@);
    let id = text::decimal_text(file_id);
    let same_policy = text::same_text(predicate.policy.file_id.as_str(), id.as_str())
        && text::same_text(claim.rules.file_id.as_str(), id.as_str())
        && claim.rules.chain_version == predicate.policy.chain_version;
    let same_digest = text::same_text(bundle_sha256, claim.rules.bundle_sha256.as_str());
    let same_version = claim.rules.chain_version == chain_version;
    verdict.matches_chain = Some(same_policy && same_version && same_digest);
    if !same_policy {
        push_problem(
            &mut verdict.problems,
            "receipt was issued against a different chain".to_owned(),
        );
    }
    let ghost first = when(!same_policy, "receipt was issued against a different chain"@);
    assert(text::texts(verdict.problems@) =~= start + first);
    if !same_version {
        return;
    }
    if !same_digest {
        push_problem(
            &mut verdict.problems,
            "receipt cites this chain version but a different bundle digest".to_owned(),
        );
    }
    let ghost second = first + when(
        !same_digest,
        "receipt cites this chain version but a different bundle digest"@,
    );
    assert(text::texts(verdict.problems@) =~= start + second);
    match bundle.section(sources::RULES) {
        Some(rules) => {
            let profile = Profile::from(&claim.profile);
            let derived = obligations::select(rules, &profile);
            let consistent = all_owed(&claim.obligations, &derived);
            verdict.obligations_reproduced = Some(consistent);
            if !consistent {
                push_problem(
                    &mut verdict.problems,
                    "claimed obligations do not match what the signed rules say for this profile".to_owned(),
                );
            }
            assert(text::texts(verdict.problems@) =~= start + (second + when(
                !consistent,
                "claimed obligations do not match what the signed rules say for this profile"@,
            )));
        },
        None => {},
    }
}

/// The verdict on a receipt with the given statement, whose envelope verified
/// as `signers` says.
pub fn judge(
    claim: &Claim,
    statement: &Statement,
    signers: &Result<Vec<String>, String>,
    chain: Option<(&Bundle, u64, u64)>,
) -> (r: Result<Verdict, Error>)
    ensures
        judgement_or(r) == judged(
            claim@,
            statement@,
            outside::texts_or(*signers),
            anchor(chain),
        ),
{
    let predicate = &statement.predicate;
    let mut problems = check_signature(signers, predicate.operator);
    let bound = check_claim_binding(claim, &statement.subject, &mut problems);
    let ghost so_far = text::texts(problems@);
    if predicate.operator != claim.operator {
        let mut line = "claim names operator ".to_owned();
        line.push_str(text::decimal_text(claim.operator).as_str());
        line.push_str(" but the signed statement names ");
        line.push_str(text::decimal_text(predicate.operator).as_str());
        push_problem(&mut problems, line);
    }
    assert(text::texts(problems@) =~= so_far + operator_problems(
        claim@.operator,
        predicate@.operator,
    ));
    let mut verdict = Verdict {
        signature_valid: is_signed_as(signers, predicate.operator),
        claim_bound: bound,
        matches_chain: None,
        obligations_reproduced: None,
        operator: claim.operator,
        problems,
    };
    match chain {
        Some((bundle, file_id, chain_version)) => match bundle.digest() {
            Ok(digest) => {
                check_chain(
                    claim,
                    predicate,
                    bundle,
                    digest.as_str(),
                    file_id,
                    chain_version,
                    &mut verdict,
                );
                Ok(verdict)
            },
            Err(e) => Err(e),
        },
        None => Ok(verdict),
    }
}

/// The statement in a receipt's envelope. The payload is read as a whole
/// document first: of a field that is given twice the last value counts, and a
/// payload nested deeper than `outside::NESTING` holds no statement.
pub fn open_receipt(receipt: &Receipt) -> (r: Result<Statement, Error>)
    ensures
        statement_or(r) == enclosed(receipt@),
{
    if !text::same_text(receipt.schema.as_str(), SCHEMA) {
        let mut message = "receipt schema is ".to_owned();
        message.push_str(receipt.schema.as_str());
        message.push_str(", expected ");
        message.push_str(SCHEMA);
        return Err(Error { message });
    }
    let encoded = outside::compact_text(&receipt.envelope);
    let payload = match outside::open_envelope(encoded.as_str()) {
        Ok(payload) => payload,
        Err(e) => {
            return Err(Error::because("receipt envelope is unreadable: ", e.as_str()));
        },
    };
    let found = match outside::parse_json(payload.as_slice()) {
        Ok(v) => Statement::from_value(&v),
        Err(_) => None,
    };
    match found {
        Some(statement) => {
            if text::same_text(statement.predicate_type.as_str(), PREDICATE_TYPE) {
                Ok(statement)
            } else {
                let mut message = "receipt predicate type is ".to_owned();
                message.push_str(statement.predicate_type.as_str());
                message.push_str(", expected ");
                message.push_str(PREDICATE_TYPE);
                Err(Error { message })
            }
        },
        None => Err(Error::new("receipt payload is not a fedramp-aion statement")),
    }
}

/// Verify signature, claim binding, and — when a chain is supplied — that the
/// operator's stated obligations are what the signed rules actually say. The
/// registry is given as the JSON text that pins it.
pub fn verify(receipt: &Receipt, registry: &str, chain: Option<(&Bundle, u64, u64)>) -> (r: Result<
    Verdict,
    Error,
>)
    ensures
        judgement_or(r) == verified(receipt@, registry@, anchor(chain)),
{
    let statement = match open_receipt(receipt) {
        Ok(statement) => statement,
        Err(e) => {
            return Err(e);
        },
    };
    let cited: u64 = statement.predicate.policy.chain_version;
    let at_version: u64 = if cited < 1 {
        1
    } else {
        cited
    };
    let encoded = outside::compact_text(&receipt.envelope);
    let signers = outside::verify_envelope(encoded.as_str(), registry, at_version);
    judge(&receipt.claim, &statement, &signers, chain)
}

// For humans.

pub open spec fn mark_word(ok: bool) -> Seq<char> {
    if ok {
        "PASS"@
    } else {
        "FAIL"@
    }
}

pub open spec fn row_on(out: Seq<char>, label: Seq<char>, ok: Option<bool>) -> Seq<char> {
    match ok {
        Some(ok) => out + label + mark_word(ok) + " |\n"@,
        None => out,
    }
}

pub open spec fn exhibit_lines_on(out: Seq<char>, list: Seq<Exhibit>) -> Seq<char>
    decreases list.len(),
{
    if list.len() == 0 {
        out
    } else {
        let e = list.last();
        exhibit_lines_on(out, list.drop_last()) + "- evidence `"@ + e.name + "` ("@ + text::decimal(
            e.bytes as nat,
        ) + " bytes) blake3 `"@ + text::byte_prefix(e.blake3, 16)->0 + "`\n"@
    }
}

pub open spec fn outcome_on(out: Seq<char>, problems: Seq<Seq<char>>) -> Seq<char> {
    if problems.len() == 0 {
        out + "\n**VALID**\n"@
    } else {
        report::notes_on(out + "\n**INVALID**\n"@, problems)
    }
}

/// A verdict a human can act on, listing what was checked and what failed.
pub open spec fn verdict_text(r: Sealed, v: Judgement) -> Seq<char> {
    let c = r.claim;
    let head = "# Receipt — "@ + c.action
        + "\n\n| check | result |\n|---|---|\n| signature by operator "@ + text::decimal(
        v.operator as nat,
    ) + " | "@ + mark_word(v.signature_valid) + " |\n| claim bound to signature | "@ + mark_word(
        v.claim_bound,
    ) + " |\n"@;
    let rows = row_on(
        row_on(head, "| cites this chain | "@, v.matches_chain),
        "| obligations match the signed rules | "@,
        v.obligations_reproduced,
    );
    let facts = rows + "\n- decision: `"@ + c.decision + "`\n- profile: "@ + c.profile.role
        + " \n- rules: chain v"@ + text::decimal(c.rules.chain_version as nat) + ", upstream `"@
        + c.rules.upstream_version + "`, commit `"@ + text::byte_prefix(c.rules.rules_commit, 8)->0
        + "`\n- obligations: "@ + text::decimal(c.obligations.len()) + "\n"@;
    outcome_on(exhibit_lines_on(facts, c.evidence), v.problems)
}

/// The digests and the commit that a verdict shortens can be cut.
pub open spec fn presentable(c: Testimony) -> bool {
    &&& text::byte_prefix(c.rules.rules_commit, 8) is Some
    &&& presentable_evidence(c.evidence)
}

pub open spec fn presentable_evidence(list: Seq<Exhibit>) -> bool {
    forall|i: int| 0 <= i < list.len() ==> presentable_exhibit(#[trigger] list[i])
}

pub open spec fn presentable_exhibit(e: Exhibit) -> bool {
    text::utf8_len(e.blake3) >= 16 && text::byte_prefix(e.blake3, 16) is Some
}

pub fn can_present(claim: &Claim) -> (yes: bool)
    ensures
        yes == presentable(claim@),
{
    let ghost all = claim@.evidence;
    let mut i: usize = 0;
    while i < claim.evidence.len()
        invariant
            i <= claim.evidence@.len(),
            all == exhibits(claim.evidence@),
            forall|j: int| 0 <= j < i ==> presentable_exhibit(#[trigger] all[j]),
        decreases claim.evidence@.len() - i,
    {
        let digest = claim.evidence[i].blake3.as_str();
        assert(all[i as int].blake3 == digest@);
        if !text::at_least_bytes(digest, 16) || !text::cuts_cleanly(digest, 16) {
            assert(!presentable_exhibit(all[i as int]));
            return false;
        }
        i += 1;
    }
    text::cuts_cleanly(claim.rules.rules_commit.as_str(), 8)
}

fn mark(ok: bool) -> (s: &'static str)
    ensures
        s@ == mark_word(ok),
{
    if ok {
        "PASS"
    } else {
        "FAIL"
    }
}

fn push_row(out: &mut String, label: &str, ok: Option<bool>)
    ensures
        final(out)@ == row_on(old(out)@, label@, ok),
{
    match ok {
        Some(ok) => {
            out.push_str(label);
            out.push_str(mark(ok));
            out.push_str(" |\n");
        },
        None => {},
    }
}

fn push_exhibit_lines(out: &mut String, list: &Vec<EvidenceRef>)
    requires
        presentable_evidence(exhibits(list@)),
    ensures
        final(out)@ == exhibit_lines_on(old(out)@, exhibits(list@)),
{
    let ghost start = out@;
    let ghost all = exhibits(list@);
    let mut i: usize = 0;
    while i < list.len()
        invariant
            i <= list@.len(),
            all == exhibits(list@),
            forall|j: int| 0 <= j < list@.len() ==> presentable_exhibit(#[trigger] all[j]),
            out@ == exhibit_lines_on(start, all.take(i as int)),
        decreases list@.len() - i,
    {
        let e = &list[i];
        proof {
            assert(all.take(i + 1).drop_last() =~= all.take(i as int));
            assert(all.take(i + 1).last() == e@);
            assert(presentable_exhibit(all[i as int]));
        }
        out.push_str("- evidence `");
        out.push_str(e.name.as_str());
        out.push_str("` (");
        out.push_str(text::decimal_text(e.bytes).as_str());
        out.push_str(" bytes) blake3 `");
        out.push_str(text::first_bytes(e.blake3.as_str(), 16).as_str());
        out.push_str("`\n");
        i += 1;
    }
    assert(all.take(all.len() as int) =~= all);
}

/// A verdict a human can act on, listing what was checked and what failed.
pub fn verdict_markdown(receipt: &Receipt, verdict: &Verdict) -> (out: String)
    requires
        presentable(receipt@.claim),
    ensures
        out@ == verdict_text(receipt@, verdict@),
{
    let claim = &receipt.claim;
    let mut out = "# Receipt — ".to_owned();
    out.push_str(claim.action.as_str());
    out.push_str("\n\n| check | result |\n|---|---|\n| signature by operator ");
    out.push_str(text::decimal_text(verdict.operator).as_str());
    out.push_str(" | ");
    out.push_str(mark(verdict.signature_valid));
    out.push_str(" |\n| claim bound to signature | ");
    out.push_str(mark(verdict.claim_bound));
    out.push_str(" |\n");
    push_row(&mut out, "| cites this chain | ", verdict.matches_chain);
    push_row(
        &mut out,
        "| obligations match the signed rules | ",
        verdict.obligations_reproduced,
    );
    out.push_str("\n- decision: `");
    out.push_str(claim.decision.as_str());
    out.push_str("`\n- profile: ");
    out.push_str(claim.profile.role.as_str());
    out.push_str(" \n- rules: chain v");
    out.push_str(text::decimal_text(claim.rules.chain_version).as_str());
    out.push_str(", upstream `");
    out.push_str(claim.rules.upstream_version.as_str());
    out.push_str("`, commit `");
    out.push_str(text::first_bytes(claim.rules.rules_commit.as_str(), 8).as_str());
    out.push_str("`\n- obligations: ");
    out.push_str(text::decimal_text(claim.obligations.len() as u64).as_str());
    out.push_str("\n");
    assert(claim@.obligations.len() == claim.obligations@.len());
    push_exhibit_lines(&mut out, &claim.evidence);
    assert(verdict.problems@.len() == verdict@.problems.len());
    if verdict.problems.len() == 0 {
        out.push_str("\n**VALID**\n");
    } else {
        out.push_str("\n**INVALID**\n");
        report::push_notes(&mut out, &verdict.problems);
    }
    out
}

// Laws.

/// Evidence of one name has one digest.
pub open spec fn consistent_evidence(list: Seq<Exhibit>) -> bool {
    forall|i: int, j: int|
        0 <= i < j < list.len() && (#[trigger] list[i]).name == (#[trigger] list[j]).name
            ==> list[i].blake3 == list[j].blake3
}

proof fn lemma_claim_names()
    ensures
        "action"@.len() == 6,
        "action"@[0] == 'a',
        "obligations"@.len() == 11,
        "obligations"@[0] == 'o',
        "rules"@.len() == 5,
        "rules"@[0] == 'r',
        "claim"@.len() == 5,
        "claim"@[0] == 'c',
        "evidence/"@.len() == 9,
        "evidence/"@[0] == 'e',
{
    reveal_strlit("action");
    reveal_strlit("obligations");
    reveal_strlit("rules");
    reveal_strlit("claim");
    reveal_strlit("evidence/");
}

proof fn lemma_exhibit_committed(c: Testimony, k: int)
    requires
        consistent_evidence(c.evidence),
        0 <= k < c.evidence.len(),
    ensures
        committed(claim_subjects(c), "evidence/"@ + c.evidence[k].name) == Some(
            c.evidence[k].blake3,
        ),
{
    lemma_claim_names();
    let list = claim_subjects(c);
    let name = "evidence/"@ + c.evidence[k].name;
    assert(name[0] == 'e');
    let i = lemma_least_named(list, name, 4 + k);
    lemma_first_named(list, name, i);
    if i >= 4 {
        let other = c.evidence[i - 4];
        assert(list[i] == subject_of("evidence/"@ + other.name, other.blake3));
        let tail = ("evidence/"@ + other.name).skip(9);
        assert(tail =~= other.name);
        assert(name.skip(9) =~= c.evidence[k].name);
        assert(other.name == c.evidence[k].name);
    }
}

/// The first position of a name that stands at `k`.
proof fn lemma_least_named(list: Seq<Subject>, name: Seq<char>, k: int) -> (i: int)
    requires
        0 <= k < list.len(),
        list[k].name == name,
    ensures
        0 <= i <= k,
        list[i].name == name,
        forall|j: int| 0 <= j < i ==> (#[trigger] list[j]).name != name,
    decreases k,
{
    if exists|j: int| 0 <= j < k && (#[trigger] list[j]).name == name {
        let j = choose|j: int| 0 <= j < k && (#[trigger] list[j]).name == name;
        lemma_least_named(list, name, j)
    } else {
        k
    }
}

proof fn lemma_exhibits_bound(c: Testimony, n: int)
    requires
        consistent_evidence(c.evidence),
        0 <= n <= c.evidence.len(),
    ensures
        exhibit_problems(claim_subjects(c), c.evidence.take(n)).len() == 0,
    decreases n,
{
    if n > 0 {
        lemma_exhibits_bound(c, n - 1);
        lemma_exhibit_committed(c, n - 1);
        assert(c.evidence.take(n).drop_last() =~= c.evidence.take(n - 1));
    }
}

/// A claim is bound to the digests that it commits to itself.
pub proof fn law_claim_is_bound_to_its_own_subjects(c: Testimony)
    requires
        consistent_evidence(c.evidence),
    ensures
        binding_problems(c, claim_subjects(c)).len() == 0,
{
    lemma_claim_names();
    let list = claim_subjects(c);
    assert(list[0].name == "action"@);
    assert(list[1].name == "obligations"@);
    assert(list[2].name == "rules"@);
    assert(list[3].name == "claim"@);
    lemma_first_named(list, "action"@, 0);
    lemma_first_named(list, "obligations"@, 1);
    lemma_first_named(list, "rules"@, 2);
    lemma_first_named(list, "claim"@, 3);
    lemma_exhibits_bound(c, c.evidence.len() as int);
    assert(c.evidence.take(c.evidence.len() as int) =~= c.evidence);
}

/// Two claims bound to one statement have one digest, field by field and as a
/// whole: a claim cannot be edited after sealing without a collision.
pub proof fn law_one_statement_binds_one_digest(a: Testimony, b: Testimony, list: Seq<Subject>)
    requires
        binding_problems(a, list).len() == 0,
        binding_problems(b, list).len() == 0,
    ensures
        text_digest(a.action) == text_digest(b.action),
        text_digest(citations_text(a.obligations)) == text_digest(citations_text(b.obligations)),
        text_digest(edition_text(a.rules)) == text_digest(edition_text(b.rules)),
        text_digest(claim_text(a)) == text_digest(claim_text(b)),
{
}

/// A receipt that a chain finds nothing against is signed by the operator whom
/// both the claim and the statement name, and its claim is bound.
pub proof fn law_valid_receipt_is_the_operators(
    c: Testimony,
    a: Attestation,
    signers: Result<Seq<Seq<char>>, Seq<char>>,
    chain: Option<Anchor>,
)
    requires
        judged(c, a, signers, chain) matches Ok(v) && v.problems.len() == 0,
    ensures
        signers matches Ok(keyids) && signed_by(keyids, c.operator),
        a.predicate.operator == c.operator,
        binding_problems(c, a.subject).len() == 0,
{
    let found = signature_problems(signers, a.predicate.operator) + binding_problems(c, a.subject)
        + operator_problems(c.operator, a.predicate.operator);
    assert(found.len() == 0);
    assert(signature_problems(signers, a.predicate.operator).len() == 0);
    assert(operator_problems(c.operator, a.predicate.operator).len() == 0);
}

/// A receipt that the chain version it cites finds nothing against names that
/// chain and that bundle, and cites only obligations that the signed rules
/// have for its profile, with the force they have there.
pub proof fn law_valid_receipt_does_not_misstate(
    c: Testimony,
    a: Attestation,
    signers: Result<Seq<Seq<char>>, Seq<char>>,
    chain: Anchor,
    rules: Json,
)
    requires
        judged(c, a, signers, Some(chain)) matches Ok(v) && v.problems.len() == 0,
        c.rules.chain_version == chain.chain_version,
        table::lookup(chain.bundle.content, sources::RULES@) == Some(rules),
    ensures
        c.rules.file_id == text::decimal(chain.file_id as nat),
        bundle::bundle_digest(chain.bundle) == Ok::<Seq<char>, Seq<char>>(c.rules.bundle_sha256),
        reproduced(c.obligations, obligations::selected(rules, c.profile)),
{
    let digest = bundle::bundle_digest(chain.bundle)->Ok_0;
    let check = crosschecked(
        c,
        a.predicate,
        chain.bundle,
        digest,
        chain.file_id,
        chain.chain_version,
    );
    assert(check.problems.len() == 0);
}

/// A receipt matches the chain it was issued against, and where it cites only
/// obligations of its profile, the chain finds nothing against it.
pub proof fn law_receipt_matches_its_chain(
    b: Brief,
    digest: Seq<char>,
    feed_author: u64,
    nonce: Seq<u8>,
)
    requires
        table::lookup(b.bundle.content, sources::RULES@) matches Some(rules) && reproduced(
            cited(b.obligations),
            obligations::selected(rules, b.profile),
        ),
    ensures
        ({
            let claim = claimed(b, digest);
            let check = crosschecked(
                claim,
                attested(b, claim, feed_author, nonce).predicate,
                b.bundle,
                digest,
                b.file_id,
                b.chain_version,
            );
            &&& check.matches
            &&& check.reproduced == Some(true)
            &&& check.problems.len() == 0
        }),
{
}

/// A receipt, opened, is found bound and consistent with the chain it was
/// issued against: the verdict's problems are those of its signature alone.
pub proof fn law_sealed_receipt_verifies(
    b: Brief,
    digest: Seq<char>,
    feed_author: u64,
    nonce: Seq<u8>,
    r: Sealed,
    registry: Seq<char>,
)
    requires
        bundle::bundle_digest(b.bundle) == Ok::<Seq<char>, Seq<char>>(digest),
        r.claim == claimed(b, digest),
        enclosed(r) == Ok::<Attestation, Seq<char>>(attested(b, r.claim, feed_author, nonce)),
        consistent_evidence(b.evidence),
        table::lookup(b.bundle.content, sources::RULES@) matches Some(rules) && reproduced(
            cited(b.obligations),
            obligations::selected(rules, b.profile),
        ),
    ensures
        ({
            let anchor = Anchor {
                bundle: b.bundle,
                file_id: b.file_id,
                chain_version: b.chain_version,
            };
            let signers = outside::envelope_signers(
                outside::json_text(r.envelope),
                registry,
                epoch(attested(b, r.claim, feed_author, nonce)),
            );
            verified(r, registry, Some(anchor)) == Ok::<Judgement, Seq<char>>(
                Judgement {
                    signature_valid: signed_as(signers, b.operator),
                    claim_bound: true,
                    matches_chain: Some(true),
                    obligations_reproduced: Some(true),
                    operator: b.operator,
                    problems: signature_problems(signers, b.operator),
                },
            )
        }),
{
    law_claim_is_bound_to_its_own_subjects(r.claim);
    law_receipt_matches_its_chain(b, digest, feed_author, nonce);
    let signers = outside::envelope_signers(
        outside::json_text(r.envelope),
        registry,
        epoch(attested(b, r.claim, feed_author, nonce)),
    );
    let bound = binding_problems(r.claim, claim_subjects(r.claim));
    let check = crosschecked(
        r.claim,
        attested(b, r.claim, feed_author, nonce).predicate,
        b.bundle,
        digest,
        b.file_id,
        b.chain_version,
    );
    assert(signature_problems(signers, b.operator) + bound + operator_problems(
        b.operator,
        b.operator,
    ) + check.problems =~= signature_problems(signers, b.operator));
}

proof fn lemma_optional_get(v: Json, key: Seq<char>, s: Option<Seq<char>>)
    requires
        v matches Json::Object(m) && table::ordered(m),
        v.get(key) is None,
    ensures
        json::with_optional(v, key, s) matches Json::Object(m) && table::ordered(m),
        json::with_optional(v, key, s).text_at(key) == s,
        forall|other: Seq<char>|
            other != key ==> #[trigger] json::with_optional(v, key, s).get(other) == v.get(other),
{
    match s {
        Some(s) => {
            json::lemma_with(v, key, Json::Text(s));
        },
        None => {},
    }
}

proof fn lemma_party_members(p: Party)
    ensures
        party_json(p).text_at("role"@) == Some(p.role),
        party_json(p).text_at("class"@) == p.class,
        party_json(p).text_at("cert_type"@) == p.cert_type,
        party_json(p).text_at("path"@) == p.path,
{
    reveal_strlit("role");
    reveal_strlit("class");
    reveal_strlit("cert_type");
    reveal_strlit("path");
    assert("role"@[0] != "path"@[0]);
    assert("class"@.len() == 5 && "cert_type"@.len() == 9 && "role"@.len() == 4);
    let v0 = json::no_members();
    let v1 = v0.with("role"@, Json::Text(p.role));
    let v2 = json::with_optional(v1, "class"@, p.class);
    let v3 = json::with_optional(v2, "cert_type"@, p.cert_type);
    json::lemma_with(v0, "role"@, Json::Text(p.role));
    lemma_optional_get(v1, "class"@, p.class);
    lemma_optional_get(v2, "cert_type"@, p.cert_type);
    lemma_optional_get(v3, "path"@, p.path);
}

proof fn lemma_edition_members(e: Edition)
    ensures
        edition_json(e).text_at("file_id"@) == Some(e.file_id),
        edition_json(e).number_at("chain_version"@) == Some(e.chain_version),
        edition_json(e).text_at("bundle_sha256"@) == Some(e.bundle_sha256),
        edition_json(e).text_at("upstream_version"@) == Some(e.upstream_version),
        edition_json(e).text_at("rules_commit"@) == Some(e.rules_commit),
{
    reveal_strlit("file_id");
    reveal_strlit("chain_version");
    reveal_strlit("bundle_sha256");
    reveal_strlit("upstream_version");
    reveal_strlit("rules_commit");
    assert("chain_version"@[0] != "bundle_sha256"@[0]);
    let v0 = json::no_members();
    let v1 = v0.with("file_id"@, Json::Text(e.file_id));
    let v2 = v1.with("chain_version"@, Json::PosInt(e.chain_version));
    let v3 = v2.with("bundle_sha256"@, Json::Text(e.bundle_sha256));
    let v4 = v3.with("upstream_version"@, Json::Text(e.upstream_version));
    json::lemma_with(v0, "file_id"@, Json::Text(e.file_id));
    json::lemma_with(v1, "chain_version"@, Json::PosInt(e.chain_version));
    json::lemma_with(v2, "bundle_sha256"@, Json::Text(e.bundle_sha256));
    json::lemma_with(v3, "upstream_version"@, Json::Text(e.upstream_version));
    json::lemma_with(v4, "rules_commit"@, Json::Text(e.rules_commit));
}

proof fn lemma_citation_members(c: Citation)
    ensures
        citation_json(c).text_at("id"@) == Some(c.id),
        citation_json(c).text_at("force"@) == Some(c.force),
{
    reveal_strlit("id");
    reveal_strlit("force");
    assert("id"@.len() != "force"@.len());
    let v0 = json::no_members();
    json::lemma_with(v0, "id"@, Json::Text(c.id));
    json::lemma_with(v0.with("id"@, Json::Text(c.id)), "force"@, Json::Text(c.force));
}

proof fn lemma_exhibit_members(e: Exhibit)
    ensures
        exhibit_json(e).text_at("name"@) == Some(e.name),
        exhibit_json(e).text_at("blake3"@) == Some(e.blake3),
        exhibit_json(e).number_at("bytes"@) == Some(e.bytes),
{
    reveal_strlit("name");
    reveal_strlit("blake3");
    reveal_strlit("bytes");
    assert("name"@.len() == 4 && "blake3"@.len() == 6 && "bytes"@.len() == 5);
    let v0 = json::no_members();
    let v1 = v0.with("name"@, Json::Text(e.name));
    let v2 = v1.with("blake3"@, Json::Text(e.blake3));
    json::lemma_with(v0, "name"@, Json::Text(e.name));
    json::lemma_with(v1, "blake3"@, Json::Text(e.blake3));
    json::lemma_with(v2, "bytes"@, Json::PosInt(e.bytes));
}

proof fn lemma_claim_members(c: Testimony)
    ensures
        claim_json(c).text_at("action"@) == Some(c.action),
        claim_json(c).text_at("decision"@) == Some(c.decision),
        claim_json(c).number_at("operator"@) == Some(c.operator),
        claim_json(c).get("profile"@) == Some(party_json(c.profile)),
        claim_json(c).array_at("obligations"@) == Some(citations_json(c.obligations)),
        claim_json(c).array_at("evidence"@) == Some(exhibits_json(c.evidence)),
        claim_json(c).get("rules"@) == Some(edition_json(c.rules)),
{
    reveal_strlit("action");
    reveal_strlit("decision");
    reveal_strlit("operator");
    reveal_strlit("profile");
    reveal_strlit("obligations");
    reveal_strlit("evidence");
    reveal_strlit("rules");
    assert("decision"@[0] == 'd' && "operator"@[0] == 'o' && "evidence"@[0] == 'e');
    assert("action"@.len() == 6 && "profile"@.len() == 7 && "rules"@.len() == 5);
    assert("obligations"@.len() == 11);
    let v0 = json::no_members();
    let v1 = v0.with("action"@, Json::Text(c.action));
    let v2 = v1.with("decision"@, Json::Text(c.decision));
    let v3 = v2.with("operator"@, Json::PosInt(c.operator));
    let v4 = v3.with("profile"@, party_json(c.profile));
    let v5 = v4.with("obligations"@, Json::Array(citations_json(c.obligations)));
    let v6 = v5.with("evidence"@, Json::Array(exhibits_json(c.evidence)));
    json::lemma_with(v0, "action"@, Json::Text(c.action));
    json::lemma_with(v1, "decision"@, Json::Text(c.decision));
    json::lemma_with(v2, "operator"@, Json::PosInt(c.operator));
    json::lemma_with(v3, "profile"@, party_json(c.profile));
    json::lemma_with(v4, "obligations"@, Json::Array(citations_json(c.obligations)));
    json::lemma_with(v5, "evidence"@, Json::Array(exhibits_json(c.evidence)));
    json::lemma_with(v6, "rules"@, edition_json(c.rules));
}

/// The digested text tells any two claims apart, whichever field they differ
/// in: no part of a claim is left uncommitted.
pub proof fn law_claim_text_commits_every_field(a: Testimony, b: Testimony)
    requires
        legible(a),
        legible(b),
        claim_text(a) == claim_text(b),
    ensures
        a == b,
{
    lemma_claim_members(a);
    lemma_claim_members(b);
    lemma_party_members(a.profile);
    lemma_party_members(b.profile);
    lemma_edition_members(a.rules);
    lemma_edition_members(b.rules);
    let cited = citations_json(a.obligations);
    let shown = exhibits_json(a.evidence);
    assert(cited == citations_json(b.obligations));
    assert(shown == exhibits_json(b.evidence));
    assert(cited.len() == a.obligations.len() && cited.len() == b.obligations.len());
    assert forall|i: int| 0 <= i < cited.len() implies a.obligations[i] == b.obligations[i] by {
        lemma_citation_members(a.obligations[i]);
        lemma_citation_members(b.obligations[i]);
        assert(cited[i] == citation_json(a.obligations[i]));
        assert(citations_json(b.obligations)[i] == citation_json(b.obligations[i]));
    }
    assert(shown.len() == a.evidence.len() && shown.len() == b.evidence.len());
    assert forall|i: int| 0 <= i < shown.len() implies a.evidence[i] == b.evidence[i] by {
        lemma_exhibit_members(a.evidence[i]);
        lemma_exhibit_members(b.evidence[i]);
        assert(shown[i] == exhibit_json(a.evidence[i]));
        assert(exhibits_json(b.evidence)[i] == exhibit_json(b.evidence[i]));
    }
    assert(a.obligations =~= b.obligations);
    assert(a.evidence =~= b.evidence);
}

/// Two different claims that one statement binds are a collision: their texts
/// differ and have one digest.
pub proof fn law_an_edit_needs_a_collision(a: Testimony, b: Testimony, list: Seq<Subject>)
    requires
        legible(a),
        legible(b),
        a != b,
        binding_problems(a, list).len() == 0,
        binding_problems(b, list).len() == 0,
    ensures
        claim_text(a) != claim_text(b),
        text_digest(claim_text(a)) == text_digest(claim_text(b)),
{
    if claim_text(a) == claim_text(b) {
        law_claim_text_commits_every_field(a, b);
    }
}

/// A receipt, opened without a chain, is found bound: the verdict's problems
/// are those of its signature alone, and nothing is said of a chain.
pub proof fn law_sealed_receipt_verifies_without_a_chain(
    b: Brief,
    digest: Seq<char>,
    feed_author: u64,
    nonce: Seq<u8>,
    r: Sealed,
    registry: Seq<char>,
)
    requires
        r.claim == claimed(b, digest),
        enclosed(r) == Ok::<Attestation, Seq<char>>(attested(b, r.claim, feed_author, nonce)),
        consistent_evidence(b.evidence),
    ensures
        ({
            let signers = outside::envelope_signers(
                outside::json_text(r.envelope),
                registry,
                epoch(attested(b, r.claim, feed_author, nonce)),
            );
            verified(r, registry, None) == Ok::<Judgement, Seq<char>>(
                Judgement {
                    signature_valid: signed_as(signers, b.operator),
                    claim_bound: true,
                    matches_chain: None,
                    obligations_reproduced: None,
                    operator: b.operator,
                    problems: signature_problems(signers, b.operator),
                },
            )
        }),
{
    law_claim_is_bound_to_its_own_subjects(r.claim);
    let signers = outside::envelope_signers(
        outside::json_text(r.envelope),
        registry,
        epoch(attested(b, r.claim, feed_author, nonce)),
    );
    let bound = binding_problems(r.claim, claim_subjects(r.claim));
    assert(signature_problems(signers, b.operator) + bound + operator_problems(
        b.operator,
        b.operator,
    ) =~= signature_problems(signers, b.operator));
}

/// A receipt whose claim was edited after sealing is found out, with or without
/// a chain, unless the edited claim's text collides with the sealed one's under
/// the digest.
pub proof fn law_edited_receipt_is_found_out(
    r: Sealed,
    edited: Testimony,
    registry: Seq<char>,
    chain: Option<Anchor>,
)
    requires
        legible(r.claim),
        legible(edited),
        edited != r.claim,
        enclosed(r) matches Ok(a) && binding_problems(r.claim, a.subject).len() == 0,
        text_digest(claim_text(edited)) != text_digest(claim_text(r.claim)),
        verified(Sealed { claim: edited, ..r }, registry, chain) is Ok,
    ensures
        verified(Sealed { claim: edited, ..r }, registry, chain) matches Ok(v) && !v.claim_bound
            && v.problems.len() > 0,
{
    let a = enclosed(r)->Ok_0;
    let other = Sealed { claim: edited, ..r };
    assert(enclosed(other) == enclosed(r));
    if binding_problems(edited, a.subject).len() == 0 {
        law_an_edit_needs_a_collision(r.claim, edited, a.subject);
    }
    let signers = outside::envelope_signers(
        outside::json_text(r.envelope),
        registry,
        epoch(a),
    );
    let found = signature_problems(signers, a.predicate.operator) + binding_problems(
        edited,
        a.subject,
    ) + operator_problems(edited.operator, a.predicate.operator);
    assert(found.len() > 0);
}

// What a receipt says of what went into it.

/// The decision in a claim reads, as a statement's decision word does, as the
/// decision that the operator gave.
pub proof fn law_claim_states_the_decision(b: Brief, digest: Seq<char>)
    ensures
        decision_in(Some(Json::Text(claimed(b, digest).decision))) == Some(b.decision),
        named_decision(claimed(b, digest).decision) == Ok::<Decision, Seq<char>>(b.decision),
{
    lemma_decision_read(b.decision);
    law_decision_word_names_it(b.decision);
}

/// Claims of two different decisions differ in their decision.
pub proof fn law_decisions_are_told_apart(a: Brief, b: Brief, digest: Seq<char>, other: Seq<char>)
    requires
        a.decision != b.decision,
    ensures
        claimed(a, digest).decision != claimed(b, other).decision,
{
    lemma_decision_read(a.decision);
    lemma_decision_read(b.decision);
}

/// A receipt opens to a statement whose decision is the operator's, and the
/// claim beside it says the same.
pub proof fn law_receipt_states_one_decision(b: Brief, seed: Seq<u8>, feed_author: u64, r: Sealed)
    requires
        created(b, seed, feed_author, Ok(r)),
        exact_brief(b, feed_author),
    ensures
        enclosed(r) matches Ok(a) && a.predicate.decision == b.decision && decision_in(
            Some(Json::Text(r.claim.decision)),
        ) == Some(a.predicate.decision),
{
    lemma_decision_read(b.decision);
}

/// Receipts for two different decisions carry two different decisions, in the
/// claim and under the signature.
pub proof fn law_receipts_of_two_decisions_differ(
    a: Brief,
    b: Brief,
    seed: Seq<u8>,
    other: Seq<u8>,
    feed_author: u64,
    r: Sealed,
    s: Sealed,
)
    requires
        created(a, seed, feed_author, Ok(r)),
        created(b, other, feed_author, Ok(s)),
        exact_brief(a, feed_author),
        exact_brief(b, feed_author),
        a.decision != b.decision,
    ensures
        r.claim.decision != s.claim.decision,
        enclosed(r) != enclosed(s),
{
    lemma_decision_read(a.decision);
    lemma_decision_read(b.decision);
    law_receipt_states_one_decision(a, seed, feed_author, r);
    law_receipt_states_one_decision(b, other, feed_author, s);
}

/// A claim holds the action, the operator, the profile and the evidence as
/// given, and each obligation's own id and force, in order.
pub proof fn law_claim_says_what_was_given(b: Brief, digest: Seq<char>)
    ensures
        claimed(b, digest).action == b.action,
        claimed(b, digest).operator == b.operator,
        claimed(b, digest).profile.role == b.profile.role,
        claimed(b, digest).profile.class == b.profile.class,
        claimed(b, digest).profile.cert_type == b.profile.cert_type,
        claimed(b, digest).profile.path == b.profile.path,
        claimed(b, digest).evidence == b.evidence,
        claimed(b, digest).obligations.len() == b.obligations.len(),
        forall|i: int|
            0 <= i < b.obligations.len() ==> (#[trigger] claimed(b, digest).obligations[i]).id
                == b.obligations[i].id && claimed(b, digest).obligations[i].force
                == b.obligations[i].force,
{
}

/// A claim cites the chain by its number and version, the bundle by its digest,
/// and the rules by their upstream version and the commit in the bundle.
pub proof fn law_claim_cites_its_rules(b: Brief, digest: Seq<char>)
    ensures
        outside::digits_value(claimed(b, digest).rules.file_id) == Some(b.file_id as nat),
        claimed(b, digest).rules.chain_version == b.chain_version,
        claimed(b, digest).rules.bundle_sha256 == digest,
        claimed(b, digest).rules.upstream_version == b.bundle.upstream_version,
        table::lookup(b.bundle.sources, "rules"@) matches Some(r)
            ==> claimed(b, digest).rules.rules_commit == r.provenance.commit,
        table::lookup(b.bundle.sources, "rules"@) is None ==> claimed(
            b,
            digest,
        ).rules.rules_commit.len() == 0,
{
    text::law_decimal_reads_back(b.file_id as nat);
    reveal_strlit("");
}

/// The statement that is signed names the chain, its feed author, the decision,
/// the operator, the receipt version and the nonce, each as given.
pub proof fn law_statement_says_what_was_given(
    b: Brief,
    claim: Testimony,
    feed_author: u64,
    nonce: Seq<u8>,
)
    ensures
        outside::digits_value(attested(b, claim, feed_author, nonce).predicate.policy.file_id)
            == Some(b.file_id as nat),
        attested(b, claim, feed_author, nonce).predicate.policy.chain_version == b.chain_version,
        attested(b, claim, feed_author, nonce).predicate.policy.feed_author == feed_author,
        attested(b, claim, feed_author, nonce).predicate.decision == b.decision,
        attested(b, claim, feed_author, nonce).predicate.operator == b.operator,
        attested(b, claim, feed_author, nonce).predicate.receipt_version == b.receipt_version,
        canon::bytes_of_hex(attested(b, claim, feed_author, nonce).predicate.nonce) == Ok::<
            Seq<u8>,
            Seq<char>,
        >(nonce),
        attested(b, claim, feed_author, nonce).type_uri == "https://in-toto.io/Statement/v1"@,
{
    text::law_decimal_reads_back(b.file_id as nat);
    canon::law_hex_round_trips(nonce);
}

/// The subjects of a statement are the action, the obligations, the rules and
/// the whole claim, each under its name with the BLAKE3 of its text, and then
/// each piece of evidence with its own digest.
pub proof fn law_subjects_are_the_claims_digests(c: Testimony)
    ensures
        claim_subjects(c).len() == 4 + c.evidence.len(),
        committed(claim_subjects(c), "action"@) == Some(
            canon::hex_of(outside::blake3(encode_utf8(c.action))),
        ),
        committed(claim_subjects(c), "obligations"@) == Some(
            canon::hex_of(outside::blake3(encode_utf8(citations_text(c.obligations)))),
        ),
        committed(claim_subjects(c), "rules"@) == Some(
            canon::hex_of(outside::blake3(encode_utf8(edition_text(c.rules)))),
        ),
        committed(claim_subjects(c), "claim"@) == Some(
            canon::hex_of(outside::blake3(encode_utf8(claim_text(c)))),
        ),
        forall|i: int|
            0 <= i < c.evidence.len() ==> (#[trigger] claim_subjects(c)[4 + i]).name == "evidence/"@
                + c.evidence[i].name && claim_subjects(c)[4 + i].digest == seq![
                ("blake3"@, c.evidence[i].blake3),
            ],
{
    reveal_strlit("action");
    reveal_strlit("obligations");
    reveal_strlit("rules");
    reveal_strlit("claim");
    assert("action"@.len() == 6);
    assert("obligations"@.len() == 11);
    assert("rules"@.len() == 5);
    assert("claim"@.len() == 5);
    assert("rules"@[0] == 'r');
    assert("claim"@[0] == 'c');
    let s = claim_subjects(c);
    let one = s.drop_first();
    let two = one.drop_first();
    let three = two.drop_first();
    assert(s[0].name == "action"@);
    assert(one[0] == s[1] && one[0].name == "obligations"@);
    assert(two[0] == s[2] && two[0].name == "rules"@);
    assert(three[0] == s[3] && three[0].name == "claim"@);
    assert(first_named(s, "obligations"@) == first_named(one, "obligations"@));
    assert(first_named(s, "rules"@) == first_named(one, "rules"@));
    assert(first_named(one, "rules"@) == first_named(two, "rules"@));
    assert(first_named(s, "claim"@) == first_named(one, "claim"@));
    assert(first_named(one, "claim"@) == first_named(two, "claim"@));
    assert(first_named(two, "claim"@) == first_named(three, "claim"@));
}

/// The text whose digest stands for the rules names each of the edition's
/// fields, and nothing in the text is left out of an edition.
pub proof fn law_edition_text_names_every_field(e: Edition)
    ensures
        text::holds(edition_text(e), "\"file_id\":"@ + quoted(e.file_id) + ",\"chain_version\":"@),
        text::holds(
            edition_text(e),
            "\"chain_version\":"@ + text::decimal(e.chain_version as nat) + ",\"bundle_sha256\":"@,
        ),
        text::holds(
            edition_text(e),
            "\"bundle_sha256\":"@ + quoted(e.bundle_sha256) + ",\"upstream_version\":"@,
        ),
        text::holds(
            edition_text(e),
            "\"upstream_version\":"@ + quoted(e.upstream_version) + ",\"rules_commit\":"@,
        ),
        text::holds(edition_text(e), "\"rules_commit\":"@ + quoted(e.rules_commit) + "}"@),
{
    reveal_strlit("{\"file_id\":");
    reveal_strlit("\"file_id\":");
    reveal_strlit(",\"chain_version\":");
    reveal_strlit("\"chain_version\":");
    reveal_strlit(",\"bundle_sha256\":");
    reveal_strlit("\"bundle_sha256\":");
    reveal_strlit(",\"upstream_version\":");
    reveal_strlit("\"upstream_version\":");
    reveal_strlit(",\"rules_commit\":");
    reveal_strlit("\"rules_commit\":");
    let t = edition_text(e);
    let id = quoted(e.file_id);
    let n = text::decimal(e.chain_version as nat);
    let d = quoted(e.bundle_sha256);
    let u = quoted(e.upstream_version);
    let c = quoted(e.rules_commit);
    assert("{\"file_id\":"@ =~= seq!['{'] + "\"file_id\":"@);
    assert(",\"chain_version\":"@ =~= seq![','] + "\"chain_version\":"@);
    assert(",\"bundle_sha256\":"@ =~= seq![','] + "\"bundle_sha256\":"@);
    assert(",\"upstream_version\":"@ =~= seq![','] + "\"upstream_version\":"@);
    assert(",\"rules_commit\":"@ =~= seq![','] + "\"rules_commit\":"@);
    let one = "\"file_id\":"@ + id + ",\"chain_version\":"@;
    let two = "\"chain_version\":"@ + n + ",\"bundle_sha256\":"@;
    let three = "\"bundle_sha256\":"@ + d + ",\"upstream_version\":"@;
    let four = "\"upstream_version\":"@ + u + ",\"rules_commit\":"@;
    let five = "\"rules_commit\":"@ + c + "}"@;
    let none = Seq::<char>::empty();
    let tail = ",\"upstream_version\":"@ + u + ",\"rules_commit\":"@ + c + "}"@;
    let a1 = n + ",\"bundle_sha256\":"@ + d + tail;
    assert(t =~= seq!['{'] + one + a1);
    text::lemma_holds_within(seq!['{'], one, a1);
    let b2 = "{\"file_id\":"@ + id + seq![','];
    let a2 = d + tail;
    assert(t =~= b2 + two + a2);
    text::lemma_holds_within(b2, two, a2);
    let b3 = "{\"file_id\":"@ + id + ",\"chain_version\":"@ + n + seq![','];
    let a3 = u + ",\"rules_commit\":"@ + c + "}"@;
    assert(t =~= b3 + three + a3);
    text::lemma_holds_within(b3, three, a3);
    let b4 = "{\"file_id\":"@ + id + ",\"chain_version\":"@ + n + ",\"bundle_sha256\":"@ + d + seq![
        ',',
    ];
    let a4 = c + "}"@;
    assert(t =~= b4 + four + a4);
    text::lemma_holds_within(b4, four, a4);
    let b5 = "{\"file_id\":"@ + id + ",\"chain_version\":"@ + n + ",\"bundle_sha256\":"@ + d
        + ",\"upstream_version\":"@ + u + seq![','];
    assert(t =~= b5 + five + none);
    text::lemma_holds_within(b5, five, none);
}

proof fn lemma_unmarked_joined(a: Seq<char>, b: Seq<char>)
    ensures
        unmarked(a + b) == unmarked(a) + unmarked(b),
    decreases b.len(),
{
    if b.len() == 0 {
        assert(a + b =~= a);
        assert(unmarked(a) + unmarked(b) =~= unmarked(a));
    } else {
        lemma_unmarked_joined(a, b.drop_last());
        assert((a + b).drop_last() =~= a + b.drop_last());
        assert(unmarked(a + b) =~= unmarked(a) + unmarked(b));
    }
}

proof fn lemma_unmarked_plain(s: Seq<char>)
    requires
        forall|i: int| 0 <= i < s.len() ==> #[trigger] s[i] != '-' && s[i] != '_',
    ensures
        unmarked(s) == s,
    decreases s.len(),
{
    if s.len() > 0 {
        assert forall|i: int| 0 <= i < s.drop_last().len() implies #[trigger] s.drop_last()[i]
            != '-' && s.drop_last()[i] != '_' by {
            assert(s[i] != '-');
        }
        lemma_unmarked_plain(s.drop_last());
        assert(s[s.len() - 1] != '-');
        assert(s.drop_last().push(s.last()) =~= s);
    }
}

/// A decision's own word names it.
pub proof fn law_decision_word_names_it(d: Decision)
    ensures
        named_decision(d.word()) == Ok::<Decision, Seq<char>>(d),
{
    reveal_strlit("satisfied");
    reveal_strlit("not-satisfied");
    reveal_strlit("notsatisfied");
    reveal_strlit("compensating");
    reveal_strlit("unevaluated");
    assert("satisfied"@.len() == 9);
    assert("not-satisfied"@.len() == 13);
    assert("notsatisfied"@.len() == 12);
    assert("compensating"@.len() == 12);
    assert("unevaluated"@.len() == 11);
    assert("notsatisfied"@[0] == 'n');
    assert("compensating"@[0] == 'c');
    let w = d.word();
    assert(text::ascii_lower(w) =~= w);
    if d is NotSatisfied {
        let a = seq!['n', 'o', 't'];
        lemma_unmarked_plain(a);
        lemma_unmarked_plain("satisfied"@);
        let mark = seq!['-'];
        assert(mark.drop_last() =~= Seq::<char>::empty());
        assert(unmarked(mark.drop_last()) =~= Seq::<char>::empty());
        assert(unmarked(mark) =~= Seq::<char>::empty());
        lemma_unmarked_joined(a, mark);
        lemma_unmarked_joined(a + mark, "satisfied"@);
        assert(w =~= a + mark + "satisfied"@);
        assert(unmarked(w) =~= "notsatisfied"@);
    } else {
        lemma_unmarked_plain(w);
    }
}

/// Neither case nor dashes and underscores count in a decision's name.
pub proof fn law_decision_names_ignore_case_and_marks(a: Seq<char>, b: Seq<char>, mark: char)
    requires
        mark == '-' || mark == '_',
    ensures
        text::alike(a, b) ==> named_decision(a) == named_decision(b),
        named_decision(a + seq![mark] + b) == named_decision(a + b),
{
    let m = seq![mark];
    assert(text::ascii_lower(a + m + b) =~= text::ascii_lower(a) + m + text::ascii_lower(b));
    assert(text::ascii_lower(a + b) =~= text::ascii_lower(a) + text::ascii_lower(b));
    lemma_unmarked_joined(text::ascii_lower(a) + m, text::ascii_lower(b));
    lemma_unmarked_joined(text::ascii_lower(a), m);
    lemma_unmarked_joined(text::ascii_lower(a), text::ascii_lower(b));
    assert(m.drop_last() =~= Seq::<char>::empty());
    assert(unmarked(m.drop_last()) =~= Seq::<char>::empty());
    assert(unmarked(m) =~= Seq::<char>::empty());
    assert(unmarked(text::ascii_lower(a)) + unmarked(m) =~= unmarked(text::ascii_lower(a)));
}

proof fn lemma_exhibit_problems(list: Seq<Subject>, evidence: Seq<Exhibit>)
    ensures
        exhibit_problems(list, evidence).len() == 0 <==> forall|i: int|
            0 <= i < evidence.len() ==> committed(list, "evidence/"@ + (#[trigger] evidence[i]).name)
                == Some(evidence[i].blake3),
    decreases evidence.len(),
{
    if evidence.len() > 0 {
        let front = evidence.drop_last();
        lemma_exhibit_problems(list, front);
        if exhibit_problems(list, evidence).len() == 0 {
            assert forall|i: int| 0 <= i < evidence.len() implies committed(
                list,
                "evidence/"@ + (#[trigger] evidence[i]).name,
            ) == Some(evidence[i].blake3) by {
                if i < front.len() {
                    assert(front[i] == evidence[i]);
                }
            }
        }
        if forall|i: int|
            0 <= i < evidence.len() ==> committed(list, "evidence/"@ + (#[trigger] evidence[i]).name)
                == Some(evidence[i].blake3) {
            assert forall|i: int| 0 <= i < front.len() implies committed(
                list,
                "evidence/"@ + (#[trigger] front[i]).name,
            ) == Some(front[i].blake3) by {
                assert(front[i] == evidence[i]);
            }
            assert(evidence[evidence.len() - 1] == evidence.last());
        }
    }
}

/// A claim is bound exactly where the statement commits the digest of each of
/// its parts and of each piece of evidence.
pub proof fn law_bound_claim_has_every_digest(c: Testimony, list: Seq<Subject>)
    ensures
        binding_problems(c, list).len() == 0 <==> {
            &&& committed(list, "action"@) == Some(text_digest(c.action))
            &&& committed(list, "obligations"@) == Some(
                text_digest(citations_text(c.obligations)),
            )
            &&& committed(list, "rules"@) == Some(text_digest(edition_text(c.rules)))
            &&& committed(list, "claim"@) == Some(text_digest(claim_text(c)))
            &&& forall|i: int|
                0 <= i < c.evidence.len() ==> committed(
                    list,
                    "evidence/"@ + (#[trigger] c.evidence[i]).name,
                ) == Some(c.evidence[i].blake3)
        },
{
    lemma_exhibit_problems(list, c.evidence);
}

/// A verdict names the claim's operator, calls the signature valid exactly where
/// a key of the stated operator verified, and has no problem exactly where
/// the signature is valid, the claim is bound, both operators are the same and
/// the chain, where one is given, does not contradict the claim.
pub proof fn law_verdict_follows_from_its_checks(
    c: Testimony,
    a: Attestation,
    signers: Result<Seq<Seq<char>>, Seq<char>>,
    chain: Option<Anchor>,
)
    requires
        judged(c, a, signers, chain) is Ok,
    ensures
        judged(c, a, signers, chain) matches Ok(v) && {
            &&& v.operator == c.operator
            &&& v.signature_valid <==> (signers matches Ok(keyids) && exists|i: int|
                0 <= i < keyids.len() && outside::keyid_author(#[trigger] keyids[i]) == Some(
                    a.predicate.operator,
                ))
            &&& v.claim_bound <==> binding_problems(c, a.subject).len() == 0
            &&& chain is None ==> v.matches_chain is None && v.obligations_reproduced is None
            &&& chain is None ==> (v.problems.len() == 0 <==> v.signature_valid && v.claim_bound
                && c.operator == a.predicate.operator)
            &&& v.problems.len() == 0 ==> v.signature_valid && v.claim_bound && c.operator
                == a.predicate.operator
            &&& !v.signature_valid ==> v.problems.len() > 0
            &&& !v.claim_bound ==> v.problems.len() > 0
        },
{
    match signers {
        Ok(keyids) => {
            assert(signed_by(keyids, a.predicate.operator) <==> exists|i: int|
                0 <= i < keyids.len() && outside::keyid_author(#[trigger] keyids[i]) == Some(
                    a.predicate.operator,
                ));
        },
        Err(_) => {},
    }
}

/// Against a chain, a claim matches exactly where its file, version and bundle
/// digest are the chain's and the signed policy's, and its obligations are
/// judged exactly where the version is the chain's and the bundle has rules:
/// reproduced where the rules say each cited id with its force.
pub proof fn law_chain_check_compares_every_citation(
    c: Testimony,
    a: Attestation,
    signers: Result<Seq<Seq<char>>, Seq<char>>,
    chain: Anchor,
    digest: Seq<char>,
)
    requires
        bundle::bundle_digest(chain.bundle) == Ok::<Seq<char>, Seq<char>>(digest),
    ensures
        judged(c, a, signers, Some(chain)) matches Ok(v) && {
            let rules = table::lookup(chain.bundle.content, "rules"@);
            let same_file = a.predicate.policy.file_id == text::decimal(chain.file_id as nat)
                && c.rules.file_id == text::decimal(chain.file_id as nat) && c.rules.chain_version
                == a.predicate.policy.chain_version;
            let same_version = c.rules.chain_version == chain.chain_version;
            let same_digest = c.rules.bundle_sha256 == digest;
            &&& v.matches_chain == Some(same_file && same_version && same_digest)
            &&& v.obligations_reproduced is Some <==> same_version && rules is Some
            &&& v.obligations_reproduced matches Some(yes) ==> (yes <==> forall|i: int|
                0 <= i < c.obligations.len() ==> (exists|j: int|
                    0 <= j < obligations::selected(rules->0, c.profile).len()
                        && (#[trigger] obligations::selected(rules->0, c.profile)[j]).id
                        == c.obligations[i].id && obligations::selected(rules->0, c.profile)[j].force
                        == (#[trigger] c.obligations[i]).force))
            &&& (v.problems.len() == 0 <==> {
                &&& v.signature_valid
                &&& v.claim_bound
                &&& c.operator == a.predicate.operator
                &&& same_file
                &&& same_version ==> same_digest
                &&& v.obligations_reproduced != Some(false)
            })
        },
{
    let v = judged(c, a, signers, Some(chain))->Ok_0;
    if let Some(rules) = table::lookup(chain.bundle.content, "rules"@) {
        let derived = obligations::selected(rules, c.profile);
        assert forall|i: int| 0 <= i < c.obligations.len() implies owed(
            #[trigger] c.obligations[i],
            derived,
        ) == (exists|j: int|
            0 <= j < derived.len() && (#[trigger] derived[j]).id == c.obligations[i].id
                && derived[j].force == c.obligations[i].force) by {}
        assert(reproduced(c.obligations, derived) <==> forall|i: int|
            0 <= i < c.obligations.len() ==> (exists|j: int|
                0 <= j < derived.len() && (#[trigger] derived[j]).id == c.obligations[i].id
                    && derived[j].force == (#[trigger] c.obligations[i]).force));
    }
    let c1 = signature_problems(signers, a.predicate.operator);
    let c2 = binding_problems(c, a.subject);
    let c3 = operator_problems(c.operator, a.predicate.operator);
    let check = crosschecked(
        c,
        a.predicate,
        chain.bundle,
        digest,
        chain.file_id,
        chain.chain_version,
    );
    assert(v.problems.len() == c1.len() + c2.len() + c3.len() + check.problems.len());
}

/// Signers are looked up at the version of the chain that the statement names,
/// or at the first where it names none.
pub proof fn law_epoch_is_the_chain_version(a: Attestation)
    ensures
        epoch(a) >= 1,
        a.predicate.policy.chain_version >= 1 ==> epoch(a) == a.predicate.policy.chain_version,
{
}

/// The eight bytes of a number weigh up to it, least significant first.
pub proof fn law_le_bytes_weigh_up(n: u64)
    ensures
        le_bytes(n).len() == 8,
        ({
            let b = le_bytes(n);
            n as int == b[0] + b[1] * 0x100 + b[2] * 0x1_0000 + b[3] * 0x100_0000 + b[4]
                * 0x1_0000_0000 + b[5] * 0x100_0000_0000 + b[6] * 0x1_0000_0000_0000 + b[7]
                * 0x100_0000_0000_0000
        }),
{
    let b0 = (n >> 0) as u8;
    let b1 = (n >> 8) as u8;
    let b2 = (n >> 16) as u8;
    let b3 = (n >> 24) as u8;
    let b4 = (n >> 32) as u8;
    let b5 = (n >> 40) as u8;
    let b6 = (n >> 48) as u8;
    let b7 = (n >> 56) as u8;
    assert(n == (b0 as u64) + (b1 as u64) * 0x100u64 + (b2 as u64) * 0x1_0000u64 + (b3 as u64)
        * 0x100_0000u64 + (b4 as u64) * 0x1_0000_0000u64 + (b5 as u64) * 0x100_0000_0000u64 + (
    b6 as u64) * 0x1_0000_0000_0000u64 + (b7 as u64) * 0x100_0000_0000_0000u64) by (bit_vector)
        requires
            b0 == (n >> 0) as u8,
            b1 == (n >> 8) as u8,
            b2 == (n >> 16) as u8,
            b3 == (n >> 24) as u8,
            b4 == (n >> 32) as u8,
            b5 == (n >> 40) as u8,
            b6 == (n >> 48) as u8,
            b7 == (n >> 56) as u8,
    ;
}

proof fn lemma_row_begins(out: Seq<char>, label: Seq<char>, ok: Option<bool>)
    ensures
        text::begins(row_on(out, label, ok), out),
        ok == Some(true) ==> text::holds(row_on(out, label, ok), label + "PASS |\n"@),
        ok == Some(false) ==> text::holds(row_on(out, label, ok), label + "FAIL |\n"@),
        ok is None ==> row_on(out, label, ok) == out,
{
    reveal_strlit("PASS");
    reveal_strlit("FAIL");
    reveal_strlit(" |\n");
    reveal_strlit("PASS |\n");
    reveal_strlit("FAIL |\n");
    assert("PASS |\n"@ =~= "PASS"@ + " |\n"@);
    assert("FAIL |\n"@ =~= "FAIL"@ + " |\n"@);
    text::lemma_begins_self(out);
    if let Some(yes) = ok {
        let line = label + (mark_word(yes) + " |\n"@);
        assert(row_on(out, label, ok) =~= out + line);
        text::lemma_begins_more(out, line, out);
        text::lemma_holds_last(out, line);
    }
}

proof fn lemma_exhibits_shown(out: Seq<char>, list: Seq<Exhibit>, i: int)
    ensures
        text::begins(exhibit_lines_on(out, list), out),
        0 <= i < list.len() ==> text::holds(
            exhibit_lines_on(out, list),
            "- evidence `"@ + list[i].name + "` ("@ + text::decimal(list[i].bytes as nat)
                + " bytes) blake3 `"@ + text::byte_prefix(list[i].blake3, 16)->0 + "`\n"@,
        ),
    decreases list.len(),
{
    if list.len() == 0 {
        text::lemma_begins_self(out);
    } else {
        let front = list.drop_last();
        let e = list[list.len() - 1];
        lemma_exhibits_shown(out, front, i);
        let before = exhibit_lines_on(out, front);
        let line = "- evidence `"@ + e.name + "` ("@ + text::decimal(e.bytes as nat)
            + " bytes) blake3 `"@ + text::byte_prefix(e.blake3, 16)->0 + "`\n"@;
        assert(exhibit_lines_on(out, list) =~= before + line);
        text::lemma_begins_more(before, line, out);
        if i == list.len() - 1 {
            text::lemma_holds_last(before, line);
        } else if 0 <= i < list.len() {
            assert(front[i] == list[i]);
            text::lemma_begins_self(before);
            text::lemma_begins_more(before, line, before);
            text::lemma_holds_begun(
                before + line,
                before,
                "- evidence `"@ + list[i].name + "` ("@ + text::decimal(list[i].bytes as nat)
                    + " bytes) blake3 `"@ + text::byte_prefix(list[i].blake3, 16)->0 + "`\n"@,
            );
        }
    }
}

proof fn lemma_outcome_shown(out: Seq<char>, problems: Seq<Seq<char>>, i: int)
    ensures
        text::begins(outcome_on(out, problems), out),
        problems.len() == 0 ==> outcome_on(out, problems) == out + "\n**VALID**\n"@,
        problems.len() > 0 ==> text::begins(
            outcome_on(out, problems),
            out + "\n**INVALID**\n"@,
        ),
        0 <= i < problems.len() ==> text::holds(
            outcome_on(out, problems),
            "- "@ + problems[i] + "\n"@,
        ),
{
    text::lemma_begins_self(out);
    text::lemma_begins_more(out, "\n**VALID**\n"@, out);
    text::lemma_begins_more(out, "\n**INVALID**\n"@, out);
    if problems.len() > 0 {
        let top = out + "\n**INVALID**\n"@;
        report::lemma_notes_listed(top, problems, i);
        text::lemma_begins_through(report::notes_on(top, problems), top, out);
    }
}

proof fn lemma_facts(rows: Seq<char>, c: Testimony)
    ensures
        ({
            let facts = rows + "\n- decision: `"@ + c.decision + "`\n- profile: "@ + c.profile.role
                + " \n- rules: chain v"@ + text::decimal(c.rules.chain_version as nat)
                + ", upstream `"@ + c.rules.upstream_version + "`, commit `"@ + text::byte_prefix(
                c.rules.rules_commit,
                8,
            )->0 + "`\n- obligations: "@ + text::decimal(c.obligations.len()) + "\n"@;
            &&& text::begins(facts, rows)
            &&& text::holds(facts, "\n- decision: `"@ + c.decision + "`\n- profile: "@)
            &&& text::holds(facts, "`\n- profile: "@ + c.profile.role + " \n- rules: chain v"@)
            &&& text::holds(
                facts,
                " \n- rules: chain v"@ + text::decimal(c.rules.chain_version as nat)
                    + ", upstream `"@,
            )
            &&& text::holds(facts, ", upstream `"@ + c.rules.upstream_version + "`, commit `"@)
            &&& text::holds(
                facts,
                "`\n- obligations: "@ + text::decimal(c.obligations.len()) + "\n"@,
            )
        }),
{
    let f1 = rows + "\n- decision: `"@ + c.decision + "`\n- profile: "@;
    let f2 = f1 + c.profile.role + " \n- rules: chain v"@;
    let f3 = f2 + text::decimal(c.rules.chain_version as nat) + ", upstream `"@;
    let f4 = f3 + c.rules.upstream_version + "`, commit `"@;
    let f5 = f4 + text::byte_prefix(c.rules.rules_commit, 8)->0 + "`\n- obligations: "@;
    let f6 = f5 + text::decimal(c.obligations.len()) + "\n"@;
    lemma_pair_begins(rows + "\n- decision: `"@, c.decision, "`\n- profile: "@);
    text::lemma_begins_self(rows);
    text::lemma_begins_more(rows, "\n- decision: `"@, rows);
    lemma_pair_begins(f1, c.profile.role, " \n- rules: chain v"@);
    lemma_pair_begins(f2, text::decimal(c.rules.chain_version as nat), ", upstream `"@);
    lemma_pair_begins(f3, c.rules.upstream_version, "`, commit `"@);
    lemma_pair_begins(
        f4,
        text::byte_prefix(c.rules.rules_commit, 8)->0,
        "`\n- obligations: "@,
    );
    lemma_pair_begins(f5, text::decimal(c.obligations.len()), "\n"@);
    lemma_three_held(rows, "\n- decision: `"@, c.decision, "`\n- profile: "@);
    lemma_three_held(
        rows + "\n- decision: `"@ + c.decision,
        "`\n- profile: "@,
        c.profile.role,
        " \n- rules: chain v"@,
    );
    lemma_three_held(
        f1 + c.profile.role,
        " \n- rules: chain v"@,
        text::decimal(c.rules.chain_version as nat),
        ", upstream `"@,
    );
    lemma_three_held(
        f2 + text::decimal(c.rules.chain_version as nat),
        ", upstream `"@,
        c.rules.upstream_version,
        "`, commit `"@,
    );
    lemma_three_held(
        f4 + text::byte_prefix(c.rules.rules_commit, 8)->0,
        "`\n- obligations: "@,
        text::decimal(c.obligations.len()),
        "\n"@,
    );
    text::lemma_begins_through(f6, f5, f4);
    text::lemma_begins_through(f6, f4, f3);
    text::lemma_begins_through(f6, f3, f2);
    text::lemma_begins_through(f6, f2, f1);
    text::lemma_begins_through(f6, f1, rows + "\n- decision: `"@);
    text::lemma_begins_through(f6, rows + "\n- decision: `"@, rows);
    text::lemma_holds_begun(f6, f1, "\n- decision: `"@ + c.decision + "`\n- profile: "@);
    text::lemma_holds_begun(f6, f2, "`\n- profile: "@ + c.profile.role + " \n- rules: chain v"@);
    text::lemma_holds_begun(
        f6,
        f3,
        " \n- rules: chain v"@ + text::decimal(c.rules.chain_version as nat) + ", upstream `"@,
    );
    text::lemma_holds_begun(f6, f4, ", upstream `"@ + c.rules.upstream_version + "`, commit `"@);
}

proof fn lemma_pair_begins(before: Seq<char>, x: Seq<char>, y: Seq<char>)
    ensures
        text::begins(before + x + y, before),
{
    text::lemma_begins_self(before);
    text::lemma_begins_more(before, x, before);
    text::lemma_begins_more(before + x, y, before);
}

proof fn lemma_three_held(before: Seq<char>, x: Seq<char>, y: Seq<char>, z: Seq<char>)
    ensures
        text::holds(before + x + y + z, x + y + z),
{
    assert(before + x + y + z =~= before + (x + y + z));
    text::lemma_holds_last(before, x + y + z);
}

/// A verdict's page opens with the action and the result of each check in its own
/// row, says the decision, the role, the chain version, the upstream version and
/// the number of obligations, shows each piece of evidence, and ends in `VALID`
/// exactly where there is no problem; where there are some, it lists them.
pub proof fn law_verdict_page_shows_the_verdict(r: Sealed, v: Judgement, i: int)
    ensures
        ({
            let page = verdict_text(r, v);
            let c = r.claim;
            &&& text::begins(
                page,
                "# Receipt — "@ + c.action
                    + "\n\n| check | result |\n|---|---|\n| signature by operator "@
                    + text::decimal(v.operator as nat) + " | "@ + (if v.signature_valid {
                    "PASS"@
                } else {
                    "FAIL"@
                }) + " |\n| claim bound to signature | "@ + (if v.claim_bound {
                    "PASS"@
                } else {
                    "FAIL"@
                }) + " |\n"@,
            )
            &&& v.matches_chain == Some(true) ==> text::holds(
                page,
                "| cites this chain | "@ + "PASS |\n"@,
            )
            &&& v.matches_chain == Some(false) ==> text::holds(
                page,
                "| cites this chain | "@ + "FAIL |\n"@,
            )
            &&& v.obligations_reproduced == Some(true) ==> text::holds(
                page,
                "| obligations match the signed rules | "@ + "PASS |\n"@,
            )
            &&& v.obligations_reproduced == Some(false) ==> text::holds(
                page,
                "| obligations match the signed rules | "@ + "FAIL |\n"@,
            )
            &&& text::holds(page, "\n- decision: `"@ + c.decision + "`\n- profile: "@)
            &&& text::holds(page, "`\n- profile: "@ + c.profile.role + " \n- rules: chain v"@)
            &&& text::holds(
                page,
                " \n- rules: chain v"@ + text::decimal(c.rules.chain_version as nat)
                    + ", upstream `"@,
            )
            &&& text::holds(page, ", upstream `"@ + c.rules.upstream_version + "`, commit `"@)
            &&& text::holds(
                page,
                "`\n- obligations: "@ + text::decimal(c.obligations.len()) + "\n"@,
            )
            &&& 0 <= i < c.evidence.len() ==> text::holds(
                page,
                "- evidence `"@ + c.evidence[i].name + "` ("@ + text::decimal(
                    c.evidence[i].bytes as nat,
                ) + " bytes) blake3 `"@ + text::byte_prefix(c.evidence[i].blake3, 16)->0 + "`\n"@,
            )
            &&& v.problems.len() == 0 ==> text::holds(page, "\n**VALID**\n"@)
            &&& v.problems.len() > 0 ==> text::holds(page, "\n**INVALID**\n"@)
            &&& 0 <= i < v.problems.len() ==> text::holds(page, "- "@ + v.problems[i] + "\n"@)
        }),
{
    let page = verdict_text(r, v);
    let c = r.claim;
    let head = "# Receipt — "@ + c.action
        + "\n\n| check | result |\n|---|---|\n| signature by operator "@ + text::decimal(
        v.operator as nat,
    ) + " | "@ + mark_word(v.signature_valid) + " |\n| claim bound to signature | "@ + mark_word(
        v.claim_bound,
    ) + " |\n"@;
    let one = row_on(head, "| cites this chain | "@, v.matches_chain);
    let rows = row_on(
        one,
        "| obligations match the signed rules | "@,
        v.obligations_reproduced,
    );
    lemma_row_begins(head, "| cites this chain | "@, v.matches_chain);
    lemma_row_begins(
        one,
        "| obligations match the signed rules | "@,
        v.obligations_reproduced,
    );
    let facts = rows + "\n- decision: `"@ + c.decision + "`\n- profile: "@ + c.profile.role
        + " \n- rules: chain v"@ + text::decimal(c.rules.chain_version as nat) + ", upstream `"@
        + c.rules.upstream_version + "`, commit `"@ + text::byte_prefix(c.rules.rules_commit, 8)->0
        + "`\n- obligations: "@ + text::decimal(c.obligations.len()) + "\n"@;
    lemma_facts(rows, c);
    let shown = exhibit_lines_on(facts, c.evidence);
    lemma_exhibits_shown(facts, c.evidence, i);
    lemma_outcome_shown(shown, v.problems, i);
    text::lemma_holds_last(shown, "\n**VALID**\n"@);
    text::lemma_holds_last(shown, "\n**INVALID**\n"@);
    if v.problems.len() > 0 {
        text::lemma_holds_begun(page, shown + "\n**INVALID**\n"@, "\n**INVALID**\n"@);
    }
    text::lemma_begins_through(page, shown, facts);
    text::lemma_begins_through(page, facts, rows);
    text::lemma_begins_through(page, rows, one);
    text::lemma_begins_through(page, one, head);
    if v.matches_chain == Some(true) {
        text::lemma_holds_begun(page, one, "| cites this chain | "@ + "PASS |\n"@);
    }
    if v.matches_chain == Some(false) {
        text::lemma_holds_begun(page, one, "| cites this chain | "@ + "FAIL |\n"@);
    }
    if v.obligations_reproduced == Some(true) {
        text::lemma_holds_begun(
            page,
            rows,
            "| obligations match the signed rules | "@ + "PASS |\n"@,
        );
    }
    if v.obligations_reproduced == Some(false) {
        text::lemma_holds_begun(
            page,
            rows,
            "| obligations match the signed rules | "@ + "FAIL |\n"@,
        );
    }
    text::lemma_holds_begun(page, facts, "\n- decision: `"@ + c.decision + "`\n- profile: "@);
    text::lemma_holds_begun(
        page,
        facts,
        "`\n- profile: "@ + c.profile.role + " \n- rules: chain v"@,
    );
    text::lemma_holds_begun(
        page,
        facts,
        " \n- rules: chain v"@ + text::decimal(c.rules.chain_version as nat) + ", upstream `"@,
    );
    text::lemma_holds_begun(
        page,
        facts,
        ", upstream `"@ + c.rules.upstream_version + "`, commit `"@,
    );
    text::lemma_holds_begun(
        page,
        facts,
        "`\n- obligations: "@ + text::decimal(c.obligations.len()) + "\n"@,
    );
    if 0 <= i < c.evidence.len() {
        text::lemma_holds_begun(
            page,
            shown,
            "- evidence `"@ + c.evidence[i].name + "` ("@ + text::decimal(
                c.evidence[i].bytes as nat,
            ) + " bytes) blake3 `"@ + text::byte_prefix(c.evidence[i].blake3, 16)->0 + "`\n"@,
        );
    }
}

/// A claim's document has each part of the claim under its own name.
pub proof fn law_claim_document_names_its_parts(c: Testimony, i: int)
    ensures
        claim_json(c).text_at("action"@) == Some(c.action),
        claim_json(c).text_at("decision"@) == Some(c.decision),
        claim_json(c).number_at("operator"@) == Some(c.operator),
        claim_json(c).get("profile"@) matches Some(p) && p.text_at("role"@) == Some(c.profile.role)
            && p.text_at("class"@) == c.profile.class && p.text_at("cert_type"@)
            == c.profile.cert_type && p.text_at("path"@) == c.profile.path,
        claim_json(c).get("rules"@) matches Some(e) && e.text_at("file_id"@) == Some(
            c.rules.file_id,
        ) && e.number_at("chain_version"@) == Some(c.rules.chain_version) && e.text_at(
            "bundle_sha256"@,
        ) == Some(c.rules.bundle_sha256) && e.text_at("upstream_version"@) == Some(
            c.rules.upstream_version,
        ) && e.text_at("rules_commit"@) == Some(c.rules.rules_commit),
        claim_json(c).array_at("obligations"@) matches Some(list) && list.len()
            == c.obligations.len() && (0 <= i < list.len() ==> list[i].text_at("id"@) == Some(
            c.obligations[i].id,
        ) && list[i].text_at("force"@) == Some(c.obligations[i].force)),
        claim_json(c).array_at("evidence"@) matches Some(list) && list.len() == c.evidence.len()
            && (0 <= i < list.len() ==> list[i].text_at("name"@) == Some(c.evidence[i].name)
            && list[i].text_at("blake3"@) == Some(c.evidence[i].blake3) && list[i].number_at(
            "bytes"@,
        ) == Some(c.evidence[i].bytes)),
{
    lemma_claim_members(c);
    lemma_party_members(c.profile);
    lemma_edition_members(c.rules);
    if 0 <= i < c.obligations.len() {
        lemma_citation_members(c.obligations[i]);
        assert(citations_json(c.obligations)[i] == citation_json(c.obligations[i]));
    }
    if 0 <= i < c.evidence.len() {
        lemma_exhibit_members(c.evidence[i]);
        assert(exhibits_json(c.evidence)[i] == exhibit_json(c.evidence[i]));
    }
}

/// A statement's document is an in-toto statement: it has its type, its subjects
/// by name, the type of its predicate, and in the predicate each of the terms
/// under its own name.
pub proof fn law_statement_document_names_its_parts(a: Attestation, i: int)
    ensures
        statement_json(a).get("_type"@) == Some(Json::Text(a.type_uri)),
        statement_json(a).get("predicateType"@) == Some(Json::Text(a.predicate_type)),
        statement_json(a).get("predicate"@) matches Some(t) && t.get("decision"@) == Some(
            Json::Text(a.predicate.decision.word()),
        ) && t.get("operator"@) == Some(Json::PosInt(a.predicate.operator)) && t.get(
            "receipt_version"@,
        ) == Some(Json::PosInt(a.predicate.receipt_version)) && t.get("nonce"@) == Some(
            Json::Text(a.predicate.nonce),
        ) && (t.get("policy"@) matches Some(p) && p.get("file_id"@) == Some(
            Json::Text(a.predicate.policy.file_id),
        ) && p.get("chain_version"@) == Some(Json::PosInt(a.predicate.policy.chain_version))
            && p.get("feed_author"@) == Some(Json::PosInt(a.predicate.policy.feed_author))),
        statement_json(a).array_at("subject"@) matches Some(list) && list.len() == a.subject.len()
            && (0 <= i < list.len() ==> list[i].get("name"@) == Some(Json::Text(a.subject[i].name))),
{
    reveal_strlit("_type");
    reveal_strlit("subject");
    reveal_strlit("predicateType");
    reveal_strlit("predicate");
    assert("_type"@.len() == 5 && "subject"@.len() == 7 && "predicateType"@.len() == 13
        && "predicate"@.len() == 9);
    let v0 = json::no_members();
    let v1 = v0.with("_type"@, Json::Text(a.type_uri));
    let v2 = v1.with("subject"@, Json::Array(subjects_json(a.subject)));
    let v3 = v2.with("predicateType"@, Json::Text(a.predicate_type));
    json::lemma_with(v0, "_type"@, Json::Text(a.type_uri));
    json::lemma_with(v1, "subject"@, Json::Array(subjects_json(a.subject)));
    json::lemma_with(v2, "predicateType"@, Json::Text(a.predicate_type));
    json::lemma_with(v3, "predicate"@, terms_json(a.predicate));
    lemma_terms_named(a.predicate);
    lemma_policy_named(a.predicate.policy);
    if 0 <= i < a.subject.len() {
        lemma_subject_named(a.subject[i]);
        assert(subjects_json(a.subject)[i] == subject_json(a.subject[i]));
    }
}

proof fn lemma_subject_named(s: Subject)
    ensures
        subject_json(s).get("name"@) == Some(Json::Text(s.name)),
        subject_json(s).get("digest"@) == Some(bundle::texts_json(s.digest)),
{
    reveal_strlit("name");
    reveal_strlit("digest");
    assert("name"@.len() == 4 && "digest"@.len() == 6);
    let v0 = json::no_members();
    let v1 = v0.with("name"@, Json::Text(s.name));
    json::lemma_with(v0, "name"@, Json::Text(s.name));
    json::lemma_with(v1, "digest"@, bundle::texts_json(s.digest));
}

proof fn lemma_policy_named(p: Policy)
    ensures
        policy_json(p).get("file_id"@) == Some(Json::Text(p.file_id)),
        policy_json(p).get("chain_version"@) == Some(Json::PosInt(p.chain_version)),
        policy_json(p).get("feed_author"@) == Some(Json::PosInt(p.feed_author)),
{
    reveal_strlit("file_id");
    reveal_strlit("chain_version");
    reveal_strlit("feed_author");
    assert("file_id"@.len() == 7 && "chain_version"@.len() == 13 && "feed_author"@.len() == 11);
    let v0 = json::no_members();
    let v1 = v0.with("file_id"@, Json::Text(p.file_id));
    let v2 = v1.with("chain_version"@, Json::PosInt(p.chain_version));
    json::lemma_with(v0, "file_id"@, Json::Text(p.file_id));
    json::lemma_with(v1, "chain_version"@, Json::PosInt(p.chain_version));
    json::lemma_with(v2, "feed_author"@, Json::PosInt(p.feed_author));
}

proof fn lemma_terms_named(t: Terms)
    ensures
        terms_json(t).get("policy"@) == Some(policy_json(t.policy)),
        terms_json(t).get("decision"@) == Some(Json::Text(t.decision.word())),
        terms_json(t).get("operator"@) == Some(Json::PosInt(t.operator)),
        terms_json(t).get("receipt_version"@) == Some(Json::PosInt(t.receipt_version)),
        terms_json(t).get("nonce"@) == Some(Json::Text(t.nonce)),
{
    reveal_strlit("policy");
    reveal_strlit("decision");
    reveal_strlit("operator");
    reveal_strlit("receipt_version");
    reveal_strlit("nonce");
    assert("policy"@.len() == 6 && "decision"@.len() == 8 && "operator"@.len() == 8
        && "receipt_version"@.len() == 15 && "nonce"@.len() == 5);
    assert("decision"@[0] != "operator"@[0]);
    let v0 = json::no_members();
    let v1 = v0.with("policy"@, policy_json(t.policy));
    let v2 = v1.with("decision"@, Json::Text(t.decision.word()));
    let v3 = v2.with("operator"@, Json::PosInt(t.operator));
    let v4 = v3.with("receipt_version"@, Json::PosInt(t.receipt_version));
    json::lemma_with(v0, "policy"@, policy_json(t.policy));
    json::lemma_with(v1, "decision"@, Json::Text(t.decision.word()));
    json::lemma_with(v2, "operator"@, Json::PosInt(t.operator));
    json::lemma_with(v3, "receipt_version"@, Json::PosInt(t.receipt_version));
    json::lemma_with(v4, "nonce"@, Json::Text(t.nonce));
}

/// The digest that a statement commits for a name is that of its first subject of
/// the name.
pub proof fn law_committed_digest_is_the_first(list: Seq<Subject>, name: Seq<char>, i: int)
    requires
        0 <= i < list.len(),
        list[i].name == name,
        forall|j: int| 0 <= j < i ==> (#[trigger] list[j]).name != name,
    ensures
        list[i].digest.len() > 0 ==> committed(list, name) == Some(list[i].digest[0].1),
        list[i].digest.len() == 0 ==> committed(list, name) is None,
    decreases list.len(),
{
    if i > 0 {
        let rest = list.drop_first();
        assert(list[0].name != name);
        assert forall|j: int| 0 <= j < i - 1 implies (#[trigger] rest[j]).name != name by {
            assert(list[j + 1].name != name);
        }
        assert(rest[i - 1] == list[i]);
        law_committed_digest_is_the_first(rest, name, i - 1);
    }
}

/// The text whose digest stands for the obligations has each of them, with its id
/// and its force.
pub proof fn law_citations_text_lists_each(list: Seq<Citation>, i: int)
    requires
        0 <= i < list.len(),
    ensures
        text::holds(
            citations_text(list),
            "{\"id\":"@ + quoted(list[i].id) + ",\"force\":"@ + quoted(list[i].force) + "}"@,
        ),
{
    let parts = list.map_values(|c: Citation| citation_text(c));
    lemma_joined_part(parts, ","@, i);
    let body = text::join(parts, ","@);
    let part = citation_text(list[i]);
    assert(parts[i] == part);
    let j = choose|j: int| text::stands_at(body, part, j);
    let before = "["@ + body.take(j);
    let after = body.skip(j + part.len()) + "]"@;
    assert(body =~= body.take(j) + body.subrange(j, j + part.len()) + body.skip(j + part.len()));
    assert(citations_text(list) =~= before + part + after);
    text::lemma_holds_within(before, part, after);
}

proof fn lemma_joined_part(parts: Seq<Seq<char>>, sep: Seq<char>, i: int)
    requires
        0 <= i < parts.len(),
    ensures
        text::holds(text::join(parts, sep), parts[i]),
    decreases parts.len(),
{
    if parts.len() == 1 {
        text::lemma_holds_last(Seq::empty(), parts[0]);
        assert(Seq::<char>::empty() + parts[0] =~= parts[0]);
    } else {
        let front = parts.drop_last();
        let before = text::join(front, sep);
        let last = parts[parts.len() - 1];
        assert(text::join(parts, sep) == before + sep + last);
        if i < front.len() {
            lemma_joined_part(front, sep, i);
            assert(front[i] == parts[i]);
            lemma_pair_begins(before, sep, last);
            text::lemma_holds_begun(before + sep + last, before, parts[i]);
        } else {
            text::lemma_holds_last(before + sep, last);
        }
    }
}

/// A key id names the author whose number it ends in.
pub proof fn law_key_id_names_its_author(author: u64)
    ensures
        outside::keyid_author("aion:author:"@ + text::decimal(author as nat)) == Some(author),
{
    let head = "aion:author:"@;
    let n = text::decimal(author as nat);
    text::law_decimal_reads_back(author as nat);
    text::lemma_begins_self(head);
    text::lemma_begins_more(head, n, head);
    assert((head + n).skip(head.len() as int) =~= n);
    assert('0' <= n[0]);
}

/// A problem names what it is about: the operators that differ, in the claim and
/// under the signature, the field or the evidence whose digest is another.
pub proof fn law_problems_name_what_differs(
    list: Seq<Subject>,
    claimed: u64,
    signed: u64,
    name: Seq<char>,
    want: Seq<char>,
)
    ensures
        claimed == signed <==> operator_problems(claimed, signed).len() == 0,
        claimed != signed ==> operator_problems(claimed, signed)[0] == "claim names operator "@
            + text::decimal(claimed as nat) + " but the signed statement names "@ + text::decimal(
            signed as nat,
        ),
        field_problems(list, name, want).len() == 0 <==> committed(list, name) == Some(want),
        field_problems(list, name, want).len() > 0 ==> text::holds(
            field_problems(list, name, want)[0],
            "`"@ + name + "`"@,
        ),
{
    if committed(list, name) != Some(want) {
        reveal_strlit("claim field `");
        reveal_strlit("claim field ");
        reveal_strlit("` does not match the signed digest");
        reveal_strlit(" does not match the signed digest");
        reveal_strlit("receipt commits no digest for `");
        reveal_strlit("receipt commits no digest for ");
        reveal_strlit("`");
        let part = "`"@ + name + "`"@;
        if committed(list, name) is Some {
            let problem = "claim field `"@ + name + "` does not match the signed digest"@;
            assert(problem =~= "claim field "@ + part + " does not match the signed digest"@);
            text::lemma_holds_within(
                "claim field "@,
                part,
                " does not match the signed digest"@,
            );
        } else {
            let problem = "receipt commits no digest for `"@ + name + "`"@;
            assert(problem =~= "receipt commits no digest for "@ + part);
            text::lemma_holds_last("receipt commits no digest for "@, part);
        }
    }
}

/// A receipt opens only where its schema is this library's, its payload parses as
/// a statement, and the statement's predicate is a receipt's.
pub proof fn law_only_a_receipt_opens(r: Sealed)
    ensures
        enclosed(r) matches Ok(a) ==> {
            &&& r.schema == SCHEMA@
            &&& a.predicate_type == "https://aion-context.dev/fedramp-aion/receipt/v1"@
            &&& outside::envelope_payload(outside::json_text(r.envelope)) matches Ok(payload) && (
            outside::json_parse(payload) matches Ok(v) && statement_in(v) == Some(a))
        },
        r.schema != SCHEMA@ ==> enclosed(r) is Err,
        outside::envelope_payload(outside::json_text(r.envelope)) is Err ==> enclosed(r) is Err,
{
}

} // verus!
