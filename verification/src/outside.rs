//! What the outside crates compute: JSON text, canonical JSON, digests,
//! timestamps and signatures.
//!
//! Nothing in this module is proved. Each item says what is claimed of the
//! function it calls.

use vstd::multiset::Multiset;
use vstd::prelude::*;

use jsonschema::error::ValidationErrorKind::Referencing;
use jsonschema::{options, ValidationError};
use referencing::Error::Unretrievable;
use referencing::{Draft, Registry};

use crate::json;
use crate::json::{Decimal, Doc, Json, Numeral};
use crate::table;
use crate::table::Table;
use crate::text;

verus! {

/// `serde_json::Value`, as `serde_json` reads and writes it.
#[verifier::external_type_specification]
#[verifier::external_body]
pub struct ExSerdeValue(serde_json::Value);

/// `serde_json::Number`, a number that `serde_json` has read.
#[verifier::external_type_specification]
#[verifier::external_body]
pub struct ExSerdeNumber(serde_json::Number);

/// `referencing::Resource`, a schema as `jsonschema` takes it.
#[verifier::external_type_specification]
#[verifier::external_body]
pub struct ExResource(referencing::Resource);

pub open spec fn parsed(r: Result<Doc, String>) -> Result<Json, Seq<char>> {
    match r {
        Ok(v) => Ok(v@),
        Err(e) => Err(e@),
    }
}

pub open spec fn bytes_or(r: Result<Vec<u8>, String>) -> Result<Seq<u8>, Seq<char>> {
    match r {
        Ok(b) => Ok(b@),
        Err(e) => Err(e@),
    }
}

pub open spec fn texts_or(r: Result<Vec<String>, String>) -> Result<Seq<Seq<char>>, Seq<char>> {
    match r {
        Ok(t) => Ok(text::texts(t@)),
        Err(e) => Err(e@),
    }
}

/// Members in key order throughout, each key once; negative integers below
/// zero; other numbers as `serde_json` writes them.
pub open spec fn well_formed(v: Json) -> bool
    decreases v,
{
    match v {
        Json::NegInt(n) => n < 0,
        Json::Float(digits) => json::number_text(digits) && float_text(digits),
        Json::Array(items) => forall|i: int|
            0 <= i < items.len() ==> well_formed(#[trigger] items[i]),
        Json::Object(m) => table::ordered(m) && forall|i: int|
            #![trigger m[i]]
            0 <= i < m.len() ==> well_formed(m[i].1),
        _ => true,
    }
}

/// Nested no deeper than `depth`.
pub open spec fn shallow(v: Json, depth: nat) -> bool
    decreases v,
{
    match v {
        Json::Array(items) => depth > 0 && forall|i: int|
            0 <= i < items.len() ==> shallow(#[trigger] items[i], (depth - 1) as nat),
        Json::Object(m) => depth > 0 && forall|i: int|
            #![trigger m[i]]
            0 <= i < m.len() ==> shallow(m[i].1, (depth - 1) as nat),
        _ => true,
    }
}

/// The text of a number with a fraction, as `serde_json` writes one without an
/// exponent. (A whole number held as a float comes back as an integer.)
pub open spec fn fractional(digits: Seq<char>) -> bool {
    &&& float_text(digits)
    &&& digits.contains('.')
    &&& !digits.contains('e')
    &&& digits.last() != '0'
}

/// Documents that canonical JSON carries without loss: well formed, nested no
/// deeper than `depth`, and with numbers that an ECMAScript number holds
/// exactly.
pub open spec fn plain(v: Json, depth: nat) -> bool
    decreases v,
{
    match v {
        Json::PosInt(n) => n <= 0x1f_ffff_ffff_ffff,
        Json::NegInt(n) => -0x1f_ffff_ffff_ffff <= n < 0,
        Json::Float(digits) => fractional(digits),
        Json::Array(items) => depth > 0 && forall|i: int|
            0 <= i < items.len() ==> plain(#[trigger] items[i], (depth - 1) as nat),
        Json::Object(m) => depth > 0 && table::ordered(m) && forall|i: int|
            #![trigger m[i]]
            0 <= i < m.len() ==> plain(m[i].1, (depth - 1) as nat),
        _ => true,
    }
}

/// A plain object stays plain with one more plain member.
pub proof fn lemma_with_plain(v: Json, key: Seq<char>, value: Json, depth: nat)
    requires
        v is Object,
        plain(v, depth),
        plain(value, (depth - 1) as nat),
    ensures
        plain(v.with(key, value), depth),
        v.with(key, value) is Object,
{
    let m = v->Object_0;
    table::lemma_put_ordered(m, key, value);
    table::lemma_put_entries(m, key, value);
}

/// Documents that their own text carries without loss: well formed, and nested
/// no deeper than `depth`.
pub open spec fn printable(v: Json, depth: nat) -> bool
    decreases v,
{
    match v {
        Json::NegInt(n) => n < 0,
        Json::Float(digits) => float_text(digits),
        Json::Array(items) => depth > 0 && forall|i: int|
            0 <= i < items.len() ==> printable(#[trigger] items[i], (depth - 1) as nat),
        Json::Object(m) => depth > 0 && table::ordered(m) && forall|i: int|
            #![trigger m[i]]
            0 <= i < m.len() ==> printable(m[i].1, (depth - 1) as nat),
        _ => true,
    }
}

pub proof fn lemma_plain_printable(v: Json, depth: nat)
    requires
        plain(v, depth),
    ensures
        printable(v, depth),
    decreases v,
{
    match v {
        Json::Array(items) => {
            assert forall|i: int| 0 <= i < items.len() implies printable(
                #[trigger] items[i],
                (depth - 1) as nat,
            ) by {
                assert(decreases_to!(v => v->Array_0));
                assert(decreases_to!(v->Array_0 => items[i]));
                lemma_plain_printable(items[i], (depth - 1) as nat);
            }
        },
        Json::Object(m) => {
            assert forall|i: int|
                #![trigger m[i]]
                0 <= i < m.len() implies printable(m[i].1, (depth - 1) as nat) by {
                assert(decreases_to!(v => v->Object_0));
                assert(decreases_to!(v->Object_0 => m[i]));
                assert(decreases_to!(m[i] => m[i].1));
                lemma_plain_printable(m[i].1, (depth - 1) as nat);
            }
        },
        _ => {},
    }
}

/// A printable object stays printable with one more printable member.
pub proof fn lemma_with_printable(v: Json, key: Seq<char>, value: Json, depth: nat)
    requires
        v is Object,
        printable(v, depth),
        printable(value, (depth - 1) as nat),
    ensures
        printable(v.with(key, value), depth),
        v.with(key, value) is Object,
{
    let m = v->Object_0;
    table::lemma_put_ordered(m, key, value);
    table::lemma_put_entries(m, key, value);
}

/// How deep `serde_json` follows nested arrays and objects.
pub const NESTING: u64 = 127;

/// Whether a text is the one that `serde_json` writes for some double.
pub uninterp spec fn float_text(digits: Seq<char>) -> bool;

/// Carries a number over from `serde_json`: its `u64`, its `i64`, or its text,
/// which is a JSON number in the form that `serde_json` writes.
#[verifier::external_body]
fn number_from(value: serde_json::Number) -> (v: Doc)
    ensures
        v@ is Float ==> json::number_text(v@->Float_0) && float_text(v@->Float_0),
{
    match (value.as_u64(), value.as_i64()) {
        (Some(n), _) => Doc::Number(Numeral::PosInt(n)),
        (None, Some(n)) => Doc::Number(Numeral::NegInt(n)),
        (None, None) => Doc::Number(Numeral::Float(Decimal { digits: value.to_string() })),
    }
}

/// Carries a document over from `serde_json`, member by member.
#[verifier::external_body]
fn value_from(value: serde_json::Value) -> (v: Doc) {
    match value {
        serde_json::Value::Null => Doc::Null,
        serde_json::Value::Bool(b) => Doc::Bool(b),
        serde_json::Value::Number(n) => number_from(n),
        serde_json::Value::String(s) => Doc::Text(s),
        serde_json::Value::Array(items) => Doc::Array(items.into_iter().map(value_from).collect()),
        serde_json::Value::Object(map) => Doc::Object(
            Table { entries: map.into_iter().map(|(k, v)| (k, value_from(v))).collect() },
        ),
    }
}

/// Carries a document over to `serde_json`, member by member.
#[verifier::external_body]
fn value_to(value: &Doc) -> (v: serde_json::Value) {
    match value {
        Doc::Null => serde_json::Value::Null,
        Doc::Bool(b) => serde_json::Value::from(*b),
        Doc::Number(Numeral::PosInt(n)) => serde_json::Value::from(*n),
        Doc::Number(Numeral::NegInt(n)) => serde_json::Value::from(*n),
        Doc::Number(Numeral::Float(d)) => serde_json::from_str(&d.digits).unwrap_or_default(),
        Doc::Text(s) => serde_json::Value::from(s.as_str()),
        Doc::Array(items) => items.iter().map(value_to).collect(),
        Doc::Object(table) => table.entries.iter().map(|(k, v)| (k.clone(), value_to(v))).collect(),
    }
}

/// The document that a JSON text holds, or the reason it holds none.
pub uninterp spec fn json_parse(bytes: Seq<u8>) -> Result<Json, Seq<char>>;

/// The bytes are JSON text for `v`.
pub open spec fn holds_document(bytes: Seq<u8>, v: Json) -> bool {
    json_parse(bytes) == Ok::<Json, Seq<char>>(v)
}

/// `serde_json::from_slice`: the document depends on the bytes alone. Its
/// objects come in key order with each key once, and it is nested no deeper
/// than `serde_json` follows.
#[verifier::external_body]
pub(crate) fn parse_json(bytes: &[u8]) -> (r: Result<Doc, String>)
    ensures
        parsed(r) == json_parse(bytes@),
        r matches Ok(v) ==> well_formed(v@) && shallow(v@, NESTING as nat),
{
    serde_json::from_slice::<serde_json::Value>(bytes).map(value_from).map_err(|e| e.to_string())
}

/// The compact text of a document.
pub uninterp spec fn json_text(v: Json) -> Seq<char>;

/// `serde_json::to_string`: the text depends on the document alone. It can be
/// read where the document is nested no deeper than `serde_json` follows, and
/// gives the document back where that is printable.
#[verifier::external_body]
pub(crate) fn compact_text(value: &Doc) -> (r: String)
    ensures
        r@ == json_text(value@),
        json_parse(vstd::utf8::encode_utf8(r@)) is Ok <==> shallow(value@, NESTING as nat),
        printable(value@, NESTING as nat) ==> holds_document(vstd::utf8::encode_utf8(r@), value@),
{
    serde_json::to_string(&value_to(value)).unwrap_or_default()
}

/// The indented text of a document.
pub uninterp spec fn json_pretty(v: Json) -> Seq<char>;

/// `serde_json::to_string_pretty`: the text depends on the document alone.
#[verifier::external_body]
pub(crate) fn pretty_text(value: &Doc) -> (r: String)
    ensures
        r@ == json_pretty(value@),
{
    serde_json::to_string_pretty(&value_to(value)).unwrap_or_default()
}

/// The canonical form of a JSON text by RFC 8785, or the reason it has none.
pub uninterp spec fn jcs(bytes: Seq<u8>) -> Result<Seq<u8>, Seq<char>>;

/// Whatever can be read has a canonical text, which can be read too; nothing
/// else has one. A plain document survives.
pub open spec fn keeps_document(bytes: Seq<u8>, canonical: Result<Seq<u8>, Seq<char>>) -> bool {
    match json_parse(bytes) {
        Ok(v) => {
            &&& canonical is Ok
            &&& json_parse(canonical->Ok_0) is Ok
            &&& plain(v, NESTING as nat) ==> holds_document(canonical->Ok_0, v)
        },
        Err(_) => canonical is Err,
    }
}

/// `aion_context::jcs::canonicalize_json_bytes`: the canonical text depends on
/// the bytes alone. Every JSON text has one, which is JSON again, and no other
/// text has; a plain document is still the same document.
#[verifier::external_body]
pub(crate) fn canonical_json(bytes: &[u8]) -> (r: Result<Vec<u8>, String>)
    ensures
        bytes_or(r) == jcs(bytes@),
        keeps_document(bytes@, bytes_or(r)),
{
    aion_context::jcs::canonicalize_json_bytes(bytes).map_err(|e| e.to_string())
}

/// The SHA-256 digest.
pub uninterp spec fn sha256(bytes: Seq<u8>) -> Seq<u8>;

/// `sha2::Sha256::digest`: thirty-two bytes that depend on the input alone.
#[verifier::external_body]
pub(crate) fn sha256_digest(bytes: &[u8]) -> (r: Vec<u8>)
    ensures
        r@ == sha256(bytes@),
        r@.len() == 32,
{
    <sha2::Sha256 as sha2::Digest>::digest(bytes).to_vec()
}

/// The BLAKE3 digest.
pub uninterp spec fn blake3(bytes: Seq<u8>) -> Seq<u8>;

/// `blake3::hash`: thirty-two bytes that depend on the input alone.
#[verifier::external_body]
pub(crate) fn blake3_digest(bytes: &[u8]) -> (r: Vec<u8>)
    ensures
        r@ == blake3(bytes@),
        r@.len() == 32,
{
    ::blake3::hash(bytes).as_bytes().to_vec()
}

/// The instant that an RFC 3339 text names, in nanoseconds since 1970.
pub uninterp spec fn unix_nanos(s: Seq<char>) -> Option<i128>;

/// `time::OffsetDateTime::parse` with the RFC 3339 format: the instant depends
/// on the text alone.
#[verifier::external_body]
pub(crate) fn rfc3339_instant(s: &str) -> (r: Option<i128>)
    ensures
        r == unix_nanos(s@),
{
    time::OffsetDateTime::parse(s, &time::format_description::well_known::Rfc3339).ok().map(
        |t| t.unix_timestamp_nanos(),
    )
}

/// The signed envelope, as a JSON document.
pub uninterp spec fn dsse_envelope(
    payload: Seq<u8>,
    payload_type: Seq<char>,
    author: u64,
    seed: Seq<u8>,
) -> Result<Json, Seq<char>>;

/// The payload that an envelope's text carries.
pub uninterp spec fn envelope_payload(envelope: Seq<char>) -> Result<Seq<u8>, Seq<char>>;

/// The envelope's text carries `payload`.
pub open spec fn carries(envelope: Seq<char>, payload: Seq<u8>) -> bool {
    envelope_payload(envelope) == Ok::<Seq<u8>, Seq<char>>(payload)
}

/// `aion_context::dsse::sign_envelope`, with the Ed25519 key of the given seed.
/// The envelope depends on the arguments alone, a seed of thirty-two bytes
/// always gives one, and the payload can be read back from its text.
#[verifier::external_body]
pub(crate) fn sign_envelope(payload: &[u8], payload_type: &str, author: u64, seed: &[u8]) -> (r: Result<
    Doc,
    String,
>)
    ensures
        parsed(r) == dsse_envelope(payload@, payload_type@, author, seed@),
        r is Ok <==> seed@.len() == 32,
        r matches Ok(v) ==> carries(json_text(v@), payload@),
{
    let key = aion_context::crypto::SigningKey::from_bytes(seed).map_err(|e| e.to_string())?;
    let author = aion_context::types::AuthorId::new(author);
    let envelope = aion_context::dsse::sign_envelope(payload, payload_type, author, &key);
    let encoded = envelope.to_json().map_err(|e| e.to_string())?;
    serde_json::from_str::<serde_json::Value>(&encoded).map(value_from).map_err(|e| e.to_string())
}

/// `aion_context::dsse::DsseEnvelope::from_json`: the payload depends on the
/// envelope's text alone.
#[verifier::external_body]
pub(crate) fn open_envelope(envelope: &str) -> (r: Result<Vec<u8>, String>)
    ensures
        bytes_or(r) == envelope_payload(envelope@),
{
    aion_context::dsse::DsseEnvelope::from_json(envelope).map(|e| e.payload).map_err(
        |e| e.to_string(),
    )
}

/// The key ids whose signatures verified, or why the envelope was refused.
pub uninterp spec fn envelope_signers(
    envelope: Seq<char>,
    registry: Seq<char>,
    at_version: u64,
) -> Result<Seq<Seq<char>>, Seq<char>>;

/// `aion_context::dsse::verify_envelope`, against the registry that the trusted
/// JSON text `registry` pins: the outcome depends on the arguments alone.
#[verifier::external_body]
pub(crate) fn verify_envelope(envelope: &str, registry: &str, at_version: u64) -> (r: Result<
    Vec<String>,
    String,
>)
    ensures
        texts_or(r) == envelope_signers(envelope@, registry@, at_version),
{
    let envelope = aion_context::dsse::DsseEnvelope::from_json(envelope).map_err(
        |e| e.to_string(),
    )?;
    let registry = aion_context::key_registry::KeyRegistry::from_trusted_json(registry).map_err(
        |e| e.to_string(),
    )?;
    aion_context::dsse::verify_envelope(&envelope, &registry, at_version).map_err(|e| e.to_string())
}

/// The number that a run of decimal digits stands for.
pub open spec fn digits_value(s: Seq<char>) -> Option<nat>
    decreases s.len(),
{
    if s.len() == 0 {
        Some(0)
    } else if !('0' <= s.last() && s.last() <= '9') {
        None
    } else {
        match digits_value(s.drop_last()) {
            Some(n) => Some(n * 10 + (s.last() as int - 48) as nat),
            None => None,
        }
    }
}

/// An optional `+`, then at least one digit, within `u64`.
pub open spec fn unsigned_value(s: Seq<char>) -> Option<u64> {
    let digits = if s.len() > 0 && s[0] == '+' {
        s.drop_first()
    } else {
        s
    };
    match digits_value(digits) {
        Some(n) => if digits.len() > 0 && n <= u64::MAX {
            Some(n as u64)
        } else {
            None
        },
        None => None,
    }
}

/// The author that a key id names: `aion:author:` and the author's number.
pub open spec fn keyid_author(keyid: Seq<char>) -> Option<u64> {
    if text::begins(keyid, "aion:author:"@) {
        unsigned_value(keyid.skip("aion:author:"@.len() as int))
    } else {
        None
    }
}

/// `aion_context::dsse::author_from_keyid`: the number behind the prefix, where
/// the key id has that form.
#[verifier::external_body]
pub(crate) fn author_from_keyid(keyid: &str) -> (r: Option<u64>)
    ensures
        r == keyid_author(keyid@),
{
    aion_context::dsse::author_from_keyid(keyid).ok().map(|a| a.as_u64())
}

/// `RandomState::new` of `std`: a hasher's seed, another one each time, so
/// nothing is said of it.
pub assume_specification[ std::collections::hash_map::RandomState::new ]() -> (
state: std::collections::hash_map::RandomState)
;

/// `BuildHasher::hash_one` of `std`, for nothing at all: what the seed alone
/// makes of it. Nothing is said of the number.
#[verifier::external_body]
pub(crate) fn seed_hash(state: &std::collections::hash_map::RandomState) -> (r: u64) {
    std::hash::BuildHasher::hash_one(state, ())
}

/// How far checking a package against a schema came.
#[derive(Debug)]
pub enum Attempt {
    /// The schema compiled; each violation with the pointer it is at.
    Checked(Vec<(String, String)>),
    /// A reference names a resource that was not at hand; and what was said of
    /// the try to get it.
    Missing(String, String),
    /// The schema does not compile.
    Failed(String),
}

/// Carries a resource over to `jsonschema`, under its URI, in the draft that it
/// declares or else in that of the root schema.
#[verifier::external_body]
fn resource_to(resource: &(String, Doc), root: &serde_json::Value) -> (r: (
    String,
    referencing::Resource,
)) {
    let contents = value_to(&resource.1);
    let draft = Draft::default().detect(root).detect(&contents);
    (resource.0.clone(), draft.create_resource(contents))
}

pub open spec fn text_pairs(pairs: Seq<(String, String)>) -> Seq<(Seq<char>, Seq<char>)> {
    pairs.map_values(|p: (String, String)| (p.0@, p.1@))
}

pub open spec fn resources(known: Seq<(String, Doc)>) -> Seq<(Seq<char>, Json)> {
    known.map_values(|r: (String, Doc)| (r.0@, r.1@))
}

/// The violations an attempt came to.
pub open spec fn violations_in(r: Attempt) -> Multiset<(Seq<char>, Seq<char>)> {
    match r {
        Attempt::Checked(list) => text_pairs(list@).to_multiset(),
        _ => Multiset::empty(),
    }
}

/// The resources by their URIs.
pub open spec fn by_uri(known: Seq<(Seq<char>, Json)>) -> Map<Seq<char>, Json>
    decreases known.len(),
{
    if known.len() == 0 {
        Map::empty()
    } else {
        by_uri(known.drop_last()).insert(known.last().0, known.last().1)
    }
}

/// The reference an attempt stopped at.
pub open spec fn reference_in(r: Attempt) -> Seq<char> {
    match r {
        Attempt::Missing(uri, _) => uri@,
        _ => Seq::empty(),
    }
}

/// A URI in the plainest form, which normalising leaves as it is.
pub open spec fn plain_uri(uri: Seq<char>) -> bool {
    &&& text::begins(uri, "https://fedramp.gov/schemas/"@)
    &&& !text::holds(uri, "/."@)
    &&& forall|i: int| 0 <= i < uri.len() ==> plain_in_uri(#[trigger] uri[i])
}

pub open spec fn plain_in_uri(c: char) -> bool {
    'a' <= c <= 'z' || 'A' <= c <= 'Z' || '0' <= c <= '9' || c == '-' || c == '_' || c == '.'
        || c == '$' || c == '/' || c == ':'
}

/// Whether a reference's URI is written in normal form, so that no other text
/// in that form names what it names.
pub uninterp spec fn normal_uri(uri: Seq<char>) -> bool;

/// A schema's URI in normal form.
pub open spec fn in_normal_form(uri: Seq<char>) -> bool {
    plain_uri(uri) || text::begins(uri, "https://fedramp.gov/schemas/"@) && normal_uri(uri)
}

/// A relative reference that names the last part of a path, and no other.
pub open spec fn simple_name(t: Seq<char>) -> bool {
    &&& t.len() > 0
    &&& t[0] != '/'
    &&& t[0] != '.'
    &&& !text::holds(t, "/."@)
    &&& forall|i: int| 0 <= i < t.len() ==> plain_in_uri(#[trigger] t[i]) && t[i] != ':'
}

/// An address on another host than the schemas', written plainly.
pub open spec fn elsewhere(t: Seq<char>) -> bool {
    let host = text::split(t.skip(8), '/')[0];
    &&& text::begins(t, "https://"@)
    &&& host != "fedramp.gov"@
    &&& forall|i: int|
        0 <= i < host.len() ==> ('a' <= #[trigger] host[i] <= 'z' || '0' <= host[i] <= '9'
            || host[i] == '-' || host[i] == '.')
}

/// Whether a declared identity, wherever it is declared, cannot be the name of
/// a schema's `uri`.
pub open spec fn names_other(t: Seq<char>, uri: Seq<char>) -> bool {
    ||| text::begins(t, "#"@)
    ||| text::begins(t, "urn:"@)
    ||| text::begins(t, "http://"@)
    ||| elsewhere(t)
    ||| plain_uri(t) && t != uri
    ||| simple_name(t) && !(("/"@ + t).is_suffix_of(uri))
}

/// Whether two declared identities, wherever they are declared, cannot be one
/// name.
pub open spec fn apart(s: Seq<char>, t: Seq<char>) -> bool {
    ||| text::begins(s, "#"@)
    ||| text::begins(t, "#"@)
    ||| plain_uri(s) && names_other(t, s)
    ||| plain_uri(t) && names_other(s, t)
    ||| simple_name(s) && simple_name(t) && !s.contains('/') && !t.contains('/') && s != t
}

/// Whether anything in the document declares the identity `t`.
pub open spec fn declares(v: Json, t: Seq<char>) -> bool
    decreases v,
{
    match v {
        Json::Array(items) => exists|i: int|
            0 <= i < items.len() && declares(#[trigger] items[i], t),
        Json::Object(m) => v.text_at("$id"@) == Some(t) || v.text_at("id"@) == Some(t)
            || exists|i: int| #![trigger m[i]] 0 <= i < m.len() && declares(m[i].1, t),
        _ => false,
    }
}

/// Whether anything below the document's root declares the identity `t`.
pub open spec fn declares_below(v: Json, t: Seq<char>) -> bool {
    match v {
        Json::Array(items) => exists|i: int|
            0 <= i < items.len() && declares(#[trigger] items[i], t),
        Json::Object(m) => exists|i: int|
            #![trigger m[i]]
            0 <= i < m.len() && declares(m[i].1, t),
        _ => false,
    }
}

/// No two of the resources declare one name, and none declares the URI under
/// which another stands.
pub open spec fn unambiguous(known: Map<Seq<char>, Json>) -> bool {
    &&& forall|a: Seq<char>, b: Seq<char>, t: Seq<char>|
        #![trigger known.dom().contains(a), known.dom().contains(b), names_other(t, b)]
        known.dom().contains(a) && known.dom().contains(b) && a != b && declares(known[a], t)
            ==> names_other(t, b)
    &&& forall|a: Seq<char>, b: Seq<char>, s: Seq<char>, t: Seq<char>|
        known.dom().contains(a) && known.dom().contains(b) && a != b && #[trigger] declares(
            known[a],
            s,
        ) && #[trigger] declares(known[b], t) ==> apart(s, t)
}

/// No document but the one that stands under a URI declares it.
pub open spec fn undeclared(schema: Json, known: Map<Seq<char>, Json>, uri: Seq<char>) -> bool {
    &&& forall|t: Seq<char>| #[trigger] declares_below(schema, t) ==> names_other(t, uri)
    &&& forall|a: Seq<char>, t: Seq<char>|
        known.dom().contains(a) && a != uri && #[trigger] declares(known[a], t) ==> names_other(
            t,
            uri,
        )
}

/// Whether anything in the document declares a dialect.
pub open spec fn has_dialect(v: Json) -> bool
    decreases v,
{
    match v {
        Json::Array(items) => exists|i: int|
            0 <= i < items.len() && has_dialect(#[trigger] items[i]),
        Json::Object(m) => v.text_at("$schema"@) is Some || exists|i: int|
            #![trigger m[i]]
            0 <= i < m.len() && has_dialect(m[i].1),
        _ => false,
    }
}

/// Nothing below the document's root declares a dialect.
pub open spec fn one_dialect(v: Json) -> bool {
    match v {
        Json::Array(items) => forall|i: int|
            0 <= i < items.len() ==> !has_dialect(#[trigger] items[i]),
        Json::Object(m) => forall|i: int|
            #![trigger m[i]]
            0 <= i < m.len() ==> !has_dialect(m[i].1),
        _ => true,
    }
}

/// The schema and the resources are each in one dialect throughout.
pub open spec fn one_dialect_each(schema: Json, known: Map<Seq<char>, Json>) -> bool {
    one_dialect(schema) && forall|uri: Seq<char>| #[trigger]
        known.dom().contains(uri) ==> one_dialect(known[uri])
}

/// The references at which compiling a schema can stop, for want of the
/// resources that they name.
pub uninterp spec fn missing_references(
    schema: Json,
    known: Map<Seq<char>, Json>,
) -> Set<Seq<char>>;

/// Where checking a package can end, given resources by their URIs, unless it
/// stops at a missing reference: with the violations, each by the pointer it
/// is at and its message, or with nothing where the schema does not compile.
pub uninterp spec fn check_outcomes(
    schema: Json,
    known: Map<Seq<char>, Json>,
    package: Json,
) -> Set<Option<Multiset<(Seq<char>, Seq<char>)>>>;

/// Where an attempt ended, unless it stopped at a missing reference.
pub open spec fn ends_in(r: Attempt) -> Set<Option<Multiset<(Seq<char>, Seq<char>)>>> {
    match r {
        Attempt::Checked(_) => set![Some(violations_in(r))],
        Attempt::Failed(_) => set![None],
        Attempt::Missing(_, _) => Set::empty(),
    }
}

pub open spec fn no_references() -> Set<Seq<char>> {
    Set::empty()
}

/// Each schema's URI that is missing with fewer of the resources is among the
/// resources, unless a document declares it.
pub open spec fn settled(schema: Json, known: Map<Seq<char>, Json>) -> bool {
    forall|fewer: Map<Seq<char>, Json>, uri: Seq<char>|
        fewer.submap_of(known) && #[trigger] missing_references(schema, fewer).contains(uri)
            && text::begins(uri, "https://fedramp.gov/schemas/"@) && undeclared(schema, known, uri)
            ==> known.dom().contains(uri)
}

/// `jsonschema` without retrieval: compiles the schema against the resources at
/// hand, by their URIs, and checks the package. A seeded hasher decides in
/// which order the resources are taken in, and which of several missing
/// references is met first. So it is said that the attempt ended where the
/// arguments let it end, or at one of the references that they let it miss.
/// Where every name belongs to one resource, the order does not count: then
/// there is one end, or there are only references to miss. A reference that is
/// missing stays called for when resources are added, so where the schema
/// compiles it is among them, unless a document declares the name; that is said
/// where no part of a document is in a dialect of its own, which could switch
/// off what the reference stands in. The URIs are to be in normal form, as
/// those are in which absolute references are reported. What a failure is told
/// as is not said.
#[verifier::external_body]
pub(crate) fn check_package(schema: &Doc, known: &Vec<(String, Doc)>, package: &Doc) -> (r: Attempt)
    requires
        forall|i: int|
            0 <= i < known@.len() ==> in_normal_form((#[trigger] known@[i]).0@),
    ensures
        ends_in(r).subset_of(
            check_outcomes(schema@, by_uri(resources(known@)), package@),
        ),
        r is Missing ==> missing_references(schema@, by_uri(resources(known@))).contains(
            reference_in(r),
        ),
        r is Missing && text::begins(reference_in(r), "https://fedramp.gov/schemas/"@)
            ==> normal_uri(reference_in(r)),
        unambiguous(by_uri(resources(known@))) ==> ends_in(r) == check_outcomes(
            schema@,
            by_uri(resources(known@)),
            package@,
        ),
        unambiguous(by_uri(resources(known@))) && !(r is Missing) ==> missing_references(
            schema@,
            by_uri(resources(known@)),
        ) == no_references(),
        unambiguous(by_uri(resources(known@))) && one_dialect_each(
            schema@,
            by_uri(resources(known@)),
        ) && r is Checked ==> settled(schema@, by_uri(resources(known@))),
{
    let root = value_to(schema);
    let known = known.iter().map(|r| resource_to(r, &root));
    let ready = Registry::new().extend(known).and_then(|b| b.prepare());
    match ready.map_err(ValidationError::from).and_then(
        |r| options().offline().with_registry(&r).build(&root),
    ) {
        Ok(v) => Attempt::Checked(
            v.iter_errors(&value_to(package)).map(|e| (e.instance_path().to_string(), e.to_string())).collect(),
        ),
        Err(e) => match e.kind() {
            Referencing(Unretrievable { uri, source }) => Attempt::Missing(uri.clone(), source.to_string()),
            _ => Attempt::Failed(e.to_string()),
        },
    }
}

} // verus!
