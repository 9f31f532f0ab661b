//! Canonicalization, substance projection, and digests.
//!
//! Every digest is taken over canonical JSON (RFC 8785), so upstream white
//! space or key order never counts as a change.

use vstd::prelude::*;
use vstd::utf8::*;

use crate::error::Error;
use crate::json;
use crate::json::{Doc, Json};
use crate::outside;
use crate::table;
use crate::text;

verus! {

pub open spec fn doc_or(r: Result<Doc, Error>) -> Result<Json, Seq<char>> {
    match r {
        Ok(v) => Ok(v@),
        Err(e) => Err(e@),
    }
}

pub open spec fn text_or(r: Result<String, Error>) -> Result<Seq<char>, Seq<char>> {
    match r {
        Ok(s) => Ok(s@),
        Err(e) => Err(e@),
    }
}

pub open spec fn bytes_or(r: Result<Vec<u8>, Error>) -> Result<Seq<u8>, Seq<char>> {
    match r {
        Ok(b) => Ok(b@),
        Err(e) => Err(e@),
    }
}

/// The canonical text of a document.
pub open spec fn canonical_text(v: Json) -> Result<Seq<u8>, Seq<char>> {
    match outside::jcs(encode_utf8(outside::json_text(v))) {
        Ok(bytes) => Ok(bytes),
        Err(e) => Err("JCS canonicalization failed: "@ + e),
    }
}

/// The document that the canonical text of a raw document holds.
pub open spec fn canonical_document(raw: Seq<u8>) -> Result<Json, Seq<char>> {
    match outside::json_parse(raw) {
        Ok(v) => match canonical_text(v) {
            Ok(bytes) => outside::json_parse(bytes),
            Err(e) => Err(e),
        },
        Err(_) => Err("upstream payload is not valid JSON"@),
    }
}

/// Reads a document as it stands.
pub fn parse_document(raw: &[u8]) -> (r: Result<Doc, Error>)
    ensures
        doc_or(r) == outside::json_parse(raw@),
{
    match outside::parse_json(raw) {
        Ok(value) => Ok(value),
        Err(e) => Err(Error { message: e }),
    }
}

/// Writes a document as it stands, in compact form.
pub fn document_text(value: &Doc) -> (text: String)
    ensures
        text@ == outside::json_text(value@),
{
    outside::compact_text(value)
}

/// Parse and re-serialize as canonical JSON. Every JSON text has a canonical
/// document, and texts of one document have the same one.
pub fn canonicalize(raw: &[u8]) -> (r: Result<Doc, Error>)
    ensures
        doc_or(r) == canonical_document(raw@),
        r is Ok <==> outside::json_parse(raw@) is Ok,
        r matches Ok(v) ==> outside::well_formed(v@) && outside::shallow(
            v@,
            outside::NESTING as nat,
        ),
        outside::json_parse(raw@) matches Ok(v) ==> outside::plain(v, outside::NESTING as nat)
            ==> doc_or(r) == Ok::<Json, Seq<char>>(v),
{
    match outside::parse_json(raw) {
        Ok(value) => match canonical_bytes(&value) {
            Ok(bytes) => match outside::parse_json(bytes.as_slice()) {
                Ok(canonical) => Ok(canonical),
                Err(e) => Err(Error { message: e }),
            },
            Err(e) => Err(e),
        },
        Err(_) => Err(Error::new("upstream payload is not valid JSON")),
    }
}

/// Canonical bytes for a document already parsed.
pub fn canonical_bytes(value: &Doc) -> (r: Result<Vec<u8>, Error>)
    ensures
        bytes_or(r) == canonical_text(value@),
        r is Ok <==> outside::shallow(value@, outside::NESTING as nat),
        r matches Ok(bytes) ==> outside::json_parse(bytes@) is Ok,
        outside::plain(value@, outside::NESTING as nat) ==> (r matches Ok(bytes)
            && outside::holds_document(bytes@, value@)),
{
    proof {
        if outside::plain(value@, outside::NESTING as nat) {
            outside::lemma_plain_printable(value@, outside::NESTING as nat);
        }
    }
    let encoded = outside::compact_text(value);
    match outside::canonical_json(encoded.as_str().as_bytes()) {
        Ok(bytes) => Ok(bytes),
        Err(e) => Err(Error::because("JCS canonicalization failed: ", e.as_str())),
    }
}

/// The hexadecimal digit of a number below sixteen.
pub open spec fn nibble(n: int) -> char {
    if n < 10 {
        (n + 48) as char
    } else {
        (n + 87) as char
    }
}

/// Two lower-case hexadecimal digits for each byte.
pub open spec fn hex_of(bytes: Seq<u8>) -> Seq<char>
    decreases bytes.len(),
{
    if bytes.len() == 0 {
        Seq::empty()
    } else {
        hex_of(bytes.drop_last()) + seq![
            nibble(bytes.last() as int / 16),
            nibble(bytes.last() as int % 16),
        ]
    }
}

fn nibble_char(n: u8) -> (c: char)
    requires
        n < 16,
    ensures
        c == nibble(n as int),
{
    if n < 10 {
        (n + 48) as char
    } else {
        (n + 87) as char
    }
}

pub fn hex(bytes: &[u8]) -> (text: String)
    ensures
        text@ == hex_of(bytes@),
        text@.len() == 2 * bytes@.len(),
{
    let mut text = String::new();
    let mut i: usize = 0;
    while i < bytes.len()
        invariant
            i <= bytes@.len(),
            text@ == hex_of(bytes@.take(i as int)),
            text@.len() == 2 * i,
        decreases bytes@.len() - i,
    {
        let b: u8 = bytes[i];
        let ghost before = text@;
        text.push(nibble_char(b / 16));
        text.push(nibble_char(b % 16));
        proof {
            assert(bytes@.take(i + 1).drop_last() =~= bytes@.take(i as int));
            assert(text@ =~= before + seq![nibble(b as int / 16), nibble(b as int % 16)]);
        }
        i += 1;
    }
    assert(bytes@.take(bytes@.len() as int) =~= bytes@);
    text
}

pub fn sha256_hex(bytes: &[u8]) -> (text: String)
    ensures
        text@ == hex_of(outside::sha256(bytes@)),
        text@.len() == 64,
{
    let digest = outside::sha256_digest(bytes);
    hex(digest.as_slice())
}

/// The digest of a document's canonical text.
pub open spec fn document_digest(v: Json) -> Result<Seq<char>, Seq<char>> {
    match canonical_text(v) {
        Ok(bytes) => Ok(hex_of(outside::sha256(bytes))),
        Err(e) => Err(e),
    }
}

/// Digest of a document's canonical form.
pub fn digest_value(value: &Doc) -> (r: Result<String, Error>)
    ensures
        text_or(r) == document_digest(value@),
        r is Ok <==> outside::shallow(value@, outside::NESTING as nat),
{
    match canonical_bytes(value) {
        Ok(bytes) => Ok(sha256_hex(bytes.as_slice())),
        Err(e) => Err(e),
    }
}

// Reading hexadecimal.

pub open spec fn hex_digit(c: char) -> Option<u8> {
    if '0' <= c && c <= '9' {
        Some((c as int - 48) as u8)
    } else if 'a' <= c && c <= 'f' {
        Some((c as int - 87) as u8)
    } else if 'A' <= c && c <= 'F' {
        Some((c as int - 55) as u8)
    } else {
        None
    }
}

/// The byte that two digits stand for.
pub open spec fn hex_pair(a: char, b: char) -> Option<u8> {
    match (hex_digit(a), hex_digit(b)) {
        (Some(x), Some(y)) => Some((x * 16 + y) as u8),
        _ => None,
    }
}

/// The bytes that a text stands for, two digits for one, or else the index of
/// the first pair that is no byte; `at` pairs come before the text.
pub open spec fn unhex(s: Seq<char>, at: nat) -> Result<Seq<u8>, nat>
    decreases s.len(),
{
    if s.len() == 0 {
        Ok(Seq::empty())
    } else if s.len() == 1 {
        Err(at)
    } else {
        match hex_pair(s[0], s[1]) {
            Some(b) => match unhex(s.skip(2), at + 1) {
                Ok(rest) => Ok(seq![b] + rest),
                Err(e) => Err(e),
            },
            None => Err(at),
        }
    }
}

pub open spec fn bytes_of_hex(s: Seq<char>) -> Result<Seq<u8>, Seq<char>> {
    if text::utf8_len(s) % 2 == 1 {
        Err("hex string has an odd length"@)
    } else {
        match unhex(s, 0) {
            Ok(bytes) => Ok(bytes),
            Err(at) => Err(
                "invalid hex at byte "@ + text::decimal(at) + ": invalid digit found in string"@,
            ),
        }
    }
}

fn digit_of(c: char) -> (d: Option<u8>)
    ensures
        d == hex_digit(c),
        d matches Some(d) ==> d < 16,
{
    if '0' <= c && c <= '9' {
        Some(c as u8 - 48)
    } else if 'a' <= c && c <= 'f' {
        Some(c as u8 - 87)
    } else if 'A' <= c && c <= 'F' {
        Some(c as u8 - 55)
    } else {
        None
    }
}

fn pair_of(a: char, b: char) -> (byte: Option<u8>)
    ensures
        byte == hex_pair(a, b),
{
    match (digit_of(a), digit_of(b)) {
        (Some(x), Some(y)) => Some(x * 16 + y),
        _ => None,
    }
}

fn has_odd_length(s: &Vec<char>) -> (odd: bool)
    ensures
        odd == (text::utf8_len(s@) % 2 == 1),
{
    let mut odd: bool = false;
    let mut i: usize = 0;
    while i < s.len()
        invariant
            i <= s@.len(),
            odd == (text::utf8_len(s@.take(i as int)) % 2 == 1),
        decreases s@.len() - i,
    {
        assert(s@.take(i + 1).drop_last() =~= s@.take(i as int));
        if text::width_of(s[i]) % 2 == 1 {
            odd = !odd;
        }
        i += 1;
    }
    assert(s@.take(s@.len() as int) =~= s@);
    odd
}

pub fn from_hex(text: &str) -> (r: Result<Vec<u8>, Error>)
    ensures
        bytes_or(r) == bytes_of_hex(text@),
{
    let s = text::chars_of(text);
    if has_odd_length(&s) {
        return Err(Error::new("hex string has an odd length"));
    }
    let mut bytes: Vec<u8> = Vec::new();
    let mut i: usize = 0;
    let mut at: u64 = 0;
    assert(text@.skip(0) =~= text@);
    assert(match unhex(text@, 0) {
        Ok(rest) => bytes@ + rest =~= rest,
        Err(_) => true,
    });
    while i < s.len()
        invariant
            s@ == text@,
            i <= s@.len(),
            at <= i,
            match unhex(text@.skip(i as int), at as nat) {
                Ok(rest) => unhex(text@, 0) == Ok::<Seq<u8>, nat>(bytes@ + rest),
                Err(e) => unhex(text@, 0) == Err::<Seq<u8>, nat>(e),
            },
            text::utf8_len(text@) % 2 == 0,
        decreases s@.len() - i,
    {
        let ghost rest = text@.skip(i as int);
        let pair = if i + 1 < s.len() {
            pair_of(s[i], s[i + 1])
        } else {
            None
        };
        match pair {
            Some(b) => {
                proof {
                    assert(rest.skip(2) =~= text@.skip(i + 2));
                    match unhex(text@.skip(i + 2), (at + 1) as nat) {
                        Ok(tail) => {
                            assert(bytes@.push(b) + tail =~= bytes@ + (seq![b] + tail));
                        },
                        Err(_) => {},
                    }
                }
                bytes.push(b);
                i += 2;
                at += 1;
            },
            None => {
                let number = text::decimal_text(at);
                return Err(
                    Error::about(
                        "invalid hex at byte ",
                        number.as_str(),
                        ": invalid digit found in string",
                    ),
                );
            },
        }
    }
    assert(text@.skip(i as int) =~= Seq::<char>::empty());
    assert(bytes@ + Seq::<u8>::empty() =~= bytes@);
    Ok(bytes)
}

// Projections.

/// The document without the member that the keys of `path` lead to; the whole
/// document where they lead nowhere.
pub open spec fn stripped(v: Json, path: Seq<Seq<char>>) -> Json
    decreases path.len(),
{
    match v {
        Json::Object(m) => if path.len() == 0 {
            v
        } else if path.len() == 1 {
            Json::Object(table::drop_key(m, path[0]))
        } else {
            match table::lookup(m, path[0]) {
                Some(inner) => Json::Object(
                    table::put(m, path[0], stripped(inner, path.drop_first())),
                ),
                None => v,
            }
        },
        _ => v,
    }
}

/// The document without any of the members that the paths lead to.
pub open spec fn stripped_all(v: Json, paths: Seq<Seq<Seq<char>>>) -> Json
    decreases paths.len(),
{
    if paths.len() == 0 {
        v
    } else {
        stripped(stripped_all(v, paths.drop_last()), paths.last())
    }
}

fn without_from(value: &Doc, path: &[&str], from: usize) -> (projected: Doc)
    requires
        from <= path@.len(),
    ensures
        projected@ == stripped(value@, json::strs(path@).skip(from as int)),
    decreases path@.len() - from,
{
    broadcast use json::lemma_members;

    let ghost rest = json::strs(path@).skip(from as int);
    match value {
        Doc::Object(table) => {
            let mut copy = table.duplicate();
            if from == path.len() {
            } else if from + 1 == path.len() {
                proof {
                    json::lemma_deep_drop(copy@, path@[from as int]@);
                }
                copy.remove(path[from]);
            } else {
                match table.member(path[from]) {
                    Some(inner) => {
                        let smaller = without_from(inner, path, from + 1);
                        assert(rest.drop_first() =~= json::strs(path@).skip(from + 1));
                        copy.set(path[from], smaller);
                    },
                    None => {},
                }
            }
            Doc::Object(copy)
        },
        _ => value.duplicate(),
    }
}

/// Strip the member that `path` leads to, returning the projection.
///
/// `rules` strips `info.last_updated`, `marketplace` strips `meta`.
pub fn without(value: &Doc, path: &[&str]) -> (projected: Doc)
    ensures
        projected@ == stripped(value@, json::strs(path@)),
{
    assert(json::strs(path@).skip(0) =~= json::strs(path@));
    without_from(value, path, 0)
}

pub open spec fn str_paths(paths: Seq<Vec<&str>>) -> Seq<Seq<Seq<char>>> {
    paths.map_values(|p: Vec<&str>| json::strs(p@))
}

/// Strip every path in turn.
pub fn without_all(value: &Doc, paths: &Vec<Vec<&'static str>>) -> (projected: Doc)
    ensures
        projected@ == stripped_all(value@, str_paths(paths@)),
{
    let mut projected = value.duplicate();
    let mut i: usize = 0;
    while i < paths.len()
        invariant
            i <= paths@.len(),
            projected@ == stripped_all(value@, str_paths(paths@).take(i as int)),
        decreases paths@.len() - i,
    {
        projected = without(&projected, paths[i].as_slice());
        proof {
            let now = str_paths(paths@).take(i + 1);
            assert(now.drop_last() =~= str_paths(paths@).take(i as int));
            assert(now.last() == json::strs(paths@[i as int]@));
        }
        i += 1;
    }
    assert(str_paths(paths@).take(paths@.len() as int) =~= str_paths(paths@));
    projected
}

// Laws.

proof fn lemma_hex_front(bytes: Seq<u8>)
    requires
        bytes.len() > 0,
    ensures
        hex_of(bytes) == seq![nibble(bytes[0] as int / 16), nibble(bytes[0] as int % 16)] + hex_of(
            bytes.drop_first(),
        ),
    decreases bytes.len(),
{
    let front = seq![nibble(bytes[0] as int / 16), nibble(bytes[0] as int % 16)];
    if bytes.len() == 1 {
        assert(bytes.drop_last() =~= Seq::<u8>::empty());
        assert(bytes.drop_first() =~= Seq::<u8>::empty());
        assert(hex_of(bytes) =~= front + hex_of(bytes.drop_first()));
    } else {
        lemma_hex_front(bytes.drop_last());
        assert(bytes.drop_last().drop_first() =~= bytes.drop_first().drop_last());
        assert(bytes.drop_first().last() == bytes.last());
        assert(hex_of(bytes) =~= front + hex_of(bytes.drop_first()));
    }
}

proof fn lemma_unhex_hex(bytes: Seq<u8>, at: nat)
    ensures
        unhex(hex_of(bytes), at) == Ok::<Seq<u8>, nat>(bytes),
    decreases bytes.len(),
{
    if bytes.len() == 0 {
        assert(bytes =~= Seq::<u8>::empty());
    } else {
        lemma_hex_front(bytes);
        lemma_unhex_hex(bytes.drop_first(), at + 1);
        let s = hex_of(bytes);
        assert(s.skip(2) =~= hex_of(bytes.drop_first()));
        assert(seq![bytes[0]] + bytes.drop_first() =~= bytes);
    }
}

proof fn lemma_hex_len(bytes: Seq<u8>)
    ensures
        text::utf8_len(hex_of(bytes)) == 2 * bytes.len(),
    decreases bytes.len(),
{
    if bytes.len() > 0 {
        lemma_hex_len(bytes.drop_last());
        let s = hex_of(bytes);
        assert(s.drop_last().drop_last() =~= hex_of(bytes.drop_last()));
        reveal_with_fuel(text::utf8_len, 3);
    }
}

/// Bytes written in hexadecimal read back as themselves.
pub proof fn law_hex_round_trips(bytes: Seq<u8>)
    ensures
        bytes_of_hex(hex_of(bytes)) == Ok::<Seq<u8>, Seq<char>>(bytes),
{
    lemma_hex_len(bytes);
    lemma_unhex_hex(bytes, 0);
}

proof fn lemma_unhex_digits(s: Seq<char>, at: nat)
    ensures
        unhex(s, at) is Ok <==> s.len() % 2 == 0 && forall|i: int|
            0 <= i < s.len() ==> hex_digit(#[trigger] s[i]) is Some,
    decreases s.len(),
{
    if s.len() >= 2 {
        let rest = s.skip(2);
        lemma_unhex_digits(rest, at + 1);
        assert forall|i: int| 0 <= i < rest.len() implies #[trigger] rest[i] == s[i + 2] by {}
        if unhex(s, at) is Ok {
            assert forall|i: int| 0 <= i < s.len() implies hex_digit(#[trigger] s[i]) is Some by {
                if i >= 2 {
                    assert(rest[i - 2] == s[i]);
                }
            }
        }
        if s.len() % 2 == 0 && (forall|i: int|
            0 <= i < s.len() ==> hex_digit(#[trigger] s[i]) is Some) {
            assert(hex_digit(s[0]) is Some && hex_digit(s[1]) is Some);
            assert(rest.len() % 2 == 0);
        }
    } else if s.len() == 1 {
        assert(s.len() % 2 == 1);
    }
}

proof fn lemma_digits_len(s: Seq<char>)
    requires
        forall|i: int| 0 <= i < s.len() ==> hex_digit(#[trigger] s[i]) is Some,
    ensures
        text::utf8_len(s) == s.len(),
    decreases s.len(),
{
    if s.len() > 0 {
        let rest = s.drop_last();
        assert forall|i: int| 0 <= i < rest.len() implies hex_digit(#[trigger] rest[i]) is Some by {
            assert(rest[i] == s[i]);
        }
        lemma_digits_len(rest);
        assert(hex_digit(s[s.len() - 1]) is Some);
    }
}

/// Malformed input is rejected: what reads as bytes is an even number of
/// hexadecimal digits, and nothing else.
pub proof fn law_only_hex_digits_read(s: Seq<char>)
    ensures
        bytes_of_hex(s) is Ok <==> s.len() % 2 == 0 && forall|i: int|
            0 <= i < s.len() ==> hex_digit(#[trigger] s[i]) is Some,
{
    lemma_unhex_digits(s, 0);
    if forall|i: int| 0 <= i < s.len() ==> hex_digit(#[trigger] s[i]) is Some {
        lemma_digits_len(s);
    }
}

/// No two byte strings are written alike.
pub proof fn law_hex_is_injective(a: Seq<u8>, b: Seq<u8>)
    requires
        hex_of(a) == hex_of(b),
    ensures
        a == b,
{
    law_hex_round_trips(a);
    law_hex_round_trips(b);
}

/// Key order, white space and whatever else does not reach the parsed document
/// does not reach the canonical document either, nor its digest.
pub proof fn law_layout_does_not_count(a: Seq<u8>, b: Seq<u8>)
    requires
        outside::json_parse(a) == outside::json_parse(b),
    ensures
        canonical_document(a) == canonical_document(b),
        canonical_document(a) matches Ok(v) ==> document_digest(v) == document_digest(
            canonical_document(b)->Ok_0,
        ),
{
}

/// What is stripped is gone, and the rest of the members stay as they were.
pub proof fn law_stripping_drops_one_member(v: Json, key: Seq<char>, other: Seq<char>)
    requires
        v matches Json::Object(m) && table::ordered(m),
    ensures
        stripped(v, seq![key]).get(key) is None,
        other != key ==> stripped(v, seq![key]).get(other) == v.get(other),
{
    let m = v->Object_0;
    table::lemma_drop_ordered(m, key);
    if other != key {
        table::lemma_drop_lookup(m, key, other);
    }
}

/// The document with another value at a path, where the path leads somewhere.
pub open spec fn rewritten(v: Json, path: Seq<Seq<char>>, value: Json) -> Json
    decreases path.len(),
{
    match v {
        Json::Object(m) => if path.len() == 0 {
            v
        } else if path.len() == 1 {
            Json::Object(table::put(m, path[0], value))
        } else {
            match table::lookup(m, path[0]) {
                Some(inner) => Json::Object(
                    table::put(m, path[0], rewritten(inner, path.drop_first(), value)),
                ),
                None => v,
            }
        },
        _ => v,
    }
}

proof fn lemma_inner_formed(m: Seq<(Seq<char>, Json)>, key: Seq<char>)
    requires
        outside::well_formed(Json::Object(m)),
    ensures
        table::lookup(m, key) matches Some(inner) ==> outside::well_formed(inner),
{
    let i = table::lemma_lookup_index(m, key);
    if table::lookup(m, key) is Some {
        assert(outside::well_formed(m[i].1));
    }
}

proof fn lemma_put_formed(m: Seq<(Seq<char>, Json)>, key: Seq<char>, value: Json)
    requires
        outside::well_formed(Json::Object(m)),
        outside::well_formed(value),
    ensures
        outside::well_formed(Json::Object(table::put(m, key, value))),
{
    let all = table::put(m, key, value);
    table::lemma_put_ordered(m, key, value);
    table::lemma_put_entries(m, key, value);
    assert forall|j: int| #![trigger all[j]] 0 <= j < all.len() implies outside::well_formed(
        all[j].1,
    ) by {
        if all[j] != (key, value) {
            let k = choose|k: int| 0 <= k < m.len() && #[trigger] m[k] == all[j];
            assert(outside::well_formed(m[k].1));
        }
    }
}

/// Stripping keeps a document well formed.
proof fn lemma_stripped_formed(v: Json, path: Seq<Seq<char>>)
    requires
        outside::well_formed(v),
    ensures
        outside::well_formed(stripped(v, path)),
    decreases path.len(),
{
    match v {
        Json::Object(m) => {
            if path.len() == 1 {
                let rest = table::drop_key(m, path[0]);
                table::lemma_drop_ordered(m, path[0]);
                let i = table::lemma_lookup_index(m, path[0]);
                table::lemma_drop_key_at(m, path[0], i);
                assert forall|j: int|
                    #![trigger rest[j]]
                    0 <= j < rest.len() implies outside::well_formed(rest[j].1) by {
                    let k = if j < i {
                        j
                    } else {
                        j + 1
                    };
                    if i < m.len() {
                        assert(rest[j] == m[k]);
                        assert(outside::well_formed(m[k].1));
                    } else {
                        assert(outside::well_formed(m[j].1));
                    }
                }
            } else if path.len() > 1 {
                lemma_inner_formed(m, path[0]);
                match table::lookup(m, path[0]) {
                    Some(inner) => {
                        lemma_stripped_formed(inner, path.drop_first());
                        lemma_put_formed(m, path[0], stripped(inner, path.drop_first()));
                    },
                    None => {},
                }
            }
        },
        _ => {},
    }
}

/// The paths part ways before either ends.
pub open spec fn diverge(p: Seq<Seq<char>>, q: Seq<Seq<char>>) -> bool
    decreases p.len(),
{
    p.len() > 0 && q.len() > 0 && (p[0] != q[0] || diverge(p.drop_first(), q.drop_first()))
}

/// Rewriting at one path and stripping another that parts from it commute.
proof fn lemma_strip_elsewhere(v: Json, p: Seq<Seq<char>>, q: Seq<Seq<char>>, value: Json)
    requires
        outside::well_formed(v),
        diverge(p, q),
    ensures
        stripped(rewritten(v, q, value), p) == rewritten(stripped(v, p), q, value),
    decreases p.len(),
{
    match v {
        Json::Object(m) => {
            reveal_with_fuel(diverge, 2);
            let k = p[0];
            let l = q[0];
            lemma_inner_formed(m, k);
            lemma_inner_formed(m, l);
            if k == l {
                match table::lookup(m, k) {
                    Some(inner) => {
                        let below = p.drop_first();
                        let beyond = q.drop_first();
                        lemma_strip_elsewhere(inner, below, beyond, value);
                        let moved = rewritten(inner, beyond, value);
                        let cut = stripped(inner, below);
                        table::lemma_put_lookup(m, k, moved, k);
                        table::lemma_put_lookup(m, k, cut, k);
                        table::lemma_put_put(m, k, moved, stripped(moved, below));
                        table::lemma_put_put(m, k, cut, rewritten(cut, beyond, value));
                    },
                    None => {},
                }
            } else {
                let moved = if q.len() == 1 {
                    Some(value)
                } else {
                    match table::lookup(m, l) {
                        Some(inner) => Some(rewritten(inner, q.drop_first(), value)),
                        None => None,
                    }
                };
                table::lemma_drop_lookup(m, k, l);
                table::lemma_drop_ordered(m, k);
                match moved {
                    Some(x) => {
                        table::lemma_put_lookup(m, l, x, k);
                        if p.len() == 1 {
                            table::lemma_drop_put_commute(m, k, l, x);
                        } else {
                            match table::lookup(m, k) {
                                Some(inner) => {
                                    let cut = stripped(inner, p.drop_first());
                                    table::lemma_put_commute(m, k, cut, l, x);
                                    table::lemma_put_lookup(m, k, cut, l);
                                },
                                None => {},
                            }
                        }
                    },
                    None => {
                        if p.len() > 1 {
                            match table::lookup(m, k) {
                                Some(inner) => {
                                    let cut = stripped(inner, p.drop_first());
                                    table::lemma_put_lookup(m, k, cut, l);
                                },
                                None => {},
                            }
                        }
                    },
                }
            }
        },
        _ => {},
    }
}

/// What a stripped path leads to does not count: a document with another value
/// there, or with none, is the same once stripped.
pub proof fn law_stripped_value_does_not_count(v: Json, path: Seq<Seq<char>>, value: Json)
    requires
        outside::well_formed(v),
    ensures
        stripped(rewritten(v, path, value), path) == stripped(v, path),
    decreases path.len(),
{
    match v {
        Json::Object(m) => {
            if path.len() == 1 {
                table::lemma_drop_put(m, path[0], value);
            } else if path.len() > 1 {
                match table::lookup(m, path[0]) {
                    Some(inner) => {
                        let i = table::lemma_lookup_index(m, path[0]);
                        assert(outside::well_formed(m[i].1));
                        let rest = path.drop_first();
                        law_stripped_value_does_not_count(inner, rest, value);
                        let now = rewritten(inner, rest, value);
                        table::lemma_put_lookup(m, path[0], now, path[0]);
                        table::lemma_put_put(m, path[0], now, stripped(inner, rest));
                    },
                    None => {},
                }
            }
        },
        _ => {},
    }
}

/// Paths of which any two part ways.
pub open spec fn all_diverge(paths: Seq<Seq<Seq<char>>>) -> bool {
    forall|i: int, j: int|
        0 <= i < j < paths.len() ==> diverge(#[trigger] paths[i], #[trigger] paths[j])
}

proof fn lemma_all_stripped_formed(v: Json, paths: Seq<Seq<Seq<char>>>)
    requires
        outside::well_formed(v),
    ensures
        outside::well_formed(stripped_all(v, paths)),
    decreases paths.len(),
{
    if paths.len() > 0 {
        lemma_all_stripped_formed(v, paths.drop_last());
        lemma_stripped_formed(stripped_all(v, paths.drop_last()), paths.last());
    }
}

proof fn lemma_strip_all_elsewhere(
    v: Json,
    paths: Seq<Seq<Seq<char>>>,
    q: Seq<Seq<char>>,
    value: Json,
)
    requires
        outside::well_formed(v),
        forall|i: int| 0 <= i < paths.len() ==> diverge(#[trigger] paths[i], q),
    ensures
        stripped_all(rewritten(v, q, value), paths) == rewritten(stripped_all(v, paths), q, value),
    decreases paths.len(),
{
    if paths.len() > 0 {
        let rest = paths.drop_last();
        assert forall|i: int| 0 <= i < rest.len() implies diverge(#[trigger] rest[i], q) by {
            assert(rest[i] == paths[i]);
        }
        lemma_strip_all_elsewhere(v, rest, q, value);
        lemma_all_stripped_formed(v, rest);
        assert(diverge(paths[paths.len() - 1], q));
        lemma_strip_elsewhere(stripped_all(v, rest), paths.last(), q, value);
    }
}

/// What any of several stripped paths leads to does not count.
pub proof fn law_stripped_values_do_not_count(
    v: Json,
    paths: Seq<Seq<Seq<char>>>,
    k: int,
    value: Json,
)
    requires
        outside::well_formed(v),
        all_diverge(paths),
        0 <= k < paths.len(),
    ensures
        stripped_all(rewritten(v, paths[k], value), paths) == stripped_all(v, paths),
    decreases paths.len(),
{
    let rest = paths.drop_last();
    if k == paths.len() - 1 {
        assert forall|i: int| 0 <= i < rest.len() implies diverge(
            #[trigger] rest[i],
            paths[k],
        ) by {
            assert(rest[i] == paths[i]);
            assert(diverge(paths[i], paths[k]));
        }
        lemma_strip_all_elsewhere(v, rest, paths[k], value);
        lemma_all_stripped_formed(v, rest);
        law_stripped_value_does_not_count(stripped_all(v, rest), paths[k], value);
    } else {
        assert forall|i: int, j: int| 0 <= i < j < rest.len() implies diverge(
            #[trigger] rest[i],
            #[trigger] rest[j],
        ) by {
            assert(rest[i] == paths[i] && rest[j] == paths[j]);
        }
        law_stripped_values_do_not_count(v, rest, k, value);
    }
}

proof fn lemma_diverge_both_ways(p: Seq<Seq<char>>, q: Seq<Seq<char>>)
    requires
        diverge(p, q),
    ensures
        diverge(q, p),
    decreases p.len(),
{
    if p[0] == q[0] {
        lemma_diverge_both_ways(p.drop_first(), q.drop_first());
    }
}

/// Stripping takes out what its path names, and what any path that parts ways
/// with it names stays as it was.
pub proof fn law_stripping_drops_only_its_path(
    v: Json,
    path: Seq<Seq<char>>,
    other: Seq<Seq<char>>,
)
    requires
        outside::well_formed(v),
        path.len() > 0,
    ensures
        json::at(stripped(v, path), path) is None,
        diverge(path, other) ==> json::at(stripped(v, path), other) == json::at(v, other),
    decreases path.len(),
{
    let now = stripped(v, path);
    json::lemma_at_first(now, path);
    json::lemma_at_first(v, path);
    if other.len() > 0 {
        json::lemma_at_first(now, other);
        json::lemma_at_first(v, other);
    }
    match v {
        Json::Object(m) => {
            if path.len() == 1 {
                assert(path =~= seq![path[0]]);
                law_stripping_drops_one_member(v, path[0], path[0]);
                if other.len() > 0 && other[0] != path[0] {
                    table::lemma_drop_lookup(m, path[0], other[0]);
                }
                assert(!diverge(path.drop_first(), other.drop_first()));
            } else {
                match table::lookup(m, path[0]) {
                    Some(inner) => {
                        let i = table::lemma_lookup_index(m, path[0]);
                        assert(outside::well_formed(m[i].1));
                        let rest = path.drop_first();
                        law_stripping_drops_only_its_path(inner, rest, other.drop_first());
                        let cut = stripped(inner, rest);
                        table::lemma_put_lookup(m, path[0], cut, path[0]);
                        if other.len() > 0 {
                            table::lemma_put_lookup(m, path[0], cut, other[0]);
                        }
                    },
                    None => {},
                }
            }
        },
        _ => {},
    }
}

/// Stripping several paths takes out what each of them names, and leaves what
/// every other path names.
pub proof fn law_stripping_drops_only_its_paths(
    v: Json,
    paths: Seq<Seq<Seq<char>>>,
    other: Seq<Seq<char>>,
)
    requires
        outside::well_formed(v),
        all_diverge(paths),
        forall|i: int| 0 <= i < paths.len() ==> (#[trigger] paths[i]).len() > 0,
    ensures
        forall|i: int|
            0 <= i < paths.len() ==> json::at(stripped_all(v, paths), #[trigger] paths[i]) is None,
        (forall|i: int| 0 <= i < paths.len() ==> diverge(#[trigger] paths[i], other)) ==> json::at(
            stripped_all(v, paths),
            other,
        ) == json::at(v, other),
    decreases paths.len(),
{
    if paths.len() > 0 {
        let front = paths.drop_last();
        let before = stripped_all(v, front);
        assert forall|i: int, j: int| 0 <= i < j < front.len() implies diverge(
            #[trigger] front[i],
            #[trigger] front[j],
        ) by {
            assert(diverge(paths[i], paths[j]));
        }
        assert forall|i: int| 0 <= i < front.len() implies (#[trigger] front[i]).len() > 0 by {
            assert(paths[i].len() > 0);
        }
        law_stripping_drops_only_its_paths(v, front, other);
        lemma_all_stripped_formed(v, front);
        let last = paths[paths.len() - 1];
        law_stripping_drops_only_its_path(before, last, other);
        assert forall|i: int| 0 <= i < paths.len() implies json::at(
            stripped_all(v, paths),
            #[trigger] paths[i],
        ) is None by {
            if i < front.len() {
                assert(diverge(paths[i], paths[paths.len() - 1]));
                lemma_diverge_both_ways(paths[i], last);
                law_stripping_drops_only_its_path(before, last, paths[i]);
                assert(json::at(before, front[i]) is None);
            }
        }
        if forall|i: int| 0 <= i < paths.len() ==> diverge(#[trigger] paths[i], other) {
            assert forall|i: int| 0 <= i < front.len() implies diverge(
                #[trigger] front[i],
                other,
            ) by {
                assert(diverge(paths[i], other));
            }
            assert(diverge(paths[paths.len() - 1], other));
        }
    }
}

/// A document's digest reads back as the SHA-256 of its canonical bytes, and
/// there is one wherever there are such bytes.
pub proof fn law_digest_is_of_the_canonical_bytes(v: Json)
    ensures
        document_digest(v) is Ok <==> canonical_text(v) is Ok,
        document_digest(v) matches Ok(hex) ==> bytes_of_hex(hex) == Ok::<Seq<u8>, Seq<char>>(
            outside::sha256(canonical_text(v)->Ok_0),
        ),
{
    match canonical_text(v) {
        Ok(bytes) => {
            law_hex_round_trips(outside::sha256(bytes));
        },
        Err(_) => {},
    }
}

} // verus!
