//! The signed payload: provenance + digests + canonical content.
//!
//! Determinism invariant: nothing in here may depend on wall clock time. The
//! bundle is a pure function of the pinned upstream commits.

use vstd::prelude::*;

use crate::canon;
use crate::error::Error;
use crate::json;
use crate::json::{Doc, Json};
use crate::outside;
use crate::sources;
use crate::sources::{Capture, Pin, Provenance, Snapshot};
use crate::table;
use crate::table::Table;
use crate::text;

verus! {

pub const SCHEMA: &'static str = "fedramp-aion/1";

#[derive(Debug)]
pub struct SourceRecord {
    pub provenance: Provenance,
    pub content_sha256: String,
    pub substance_sha256: String,
}

#[derive(Debug)]
pub struct Bundle {
    pub schema: String,
    /// `info.version` from the rules document, carried for humans. Never used
    /// for change detection — upstream bumps it in a later commit than the
    /// content edits it describes.
    pub upstream_version: String,
    pub sources: Table<SourceRecord>,
    pub content: Table<Doc>,
}

/// What a source record says.
pub struct Record {
    pub provenance: Pin,
    pub content_sha256: Seq<char>,
    pub substance_sha256: Seq<char>,
}

/// What a bundle says.
pub struct Payload {
    pub schema: Seq<char>,
    pub upstream_version: Seq<char>,
    pub sources: Seq<(Seq<char>, Record)>,
    pub content: Seq<(Seq<char>, Json)>,
}

impl View for SourceRecord {
    type V = Record;

    open spec fn view(&self) -> Record {
        Record {
            provenance: self.provenance@,
            content_sha256: self.content_sha256@,
            substance_sha256: self.substance_sha256@,
        }
    }
}

pub open spec fn records(m: Seq<(Seq<char>, SourceRecord)>) -> Seq<(Seq<char>, Record)> {
    table::mapped(m, |r: SourceRecord| r@)
}

impl View for Bundle {
    type V = Payload;

    open spec fn view(&self) -> Payload {
        Payload {
            schema: self.schema@,
            upstream_version: self.upstream_version@,
            sources: records(self.sources@),
            content: self.content.members(),
        }
    }
}

pub open spec fn captures(snapshots: Seq<Snapshot>) -> Seq<Capture> {
    snapshots.map_values(|s: Snapshot| s@)
}

// From snapshots.

pub open spec fn record_of(s: Capture) -> Record {
    Record {
        provenance: s.provenance,
        content_sha256: s.content_sha256,
        substance_sha256: s.substance_sha256,
    }
}

pub open spec fn sources_of(snapshots: Seq<Capture>) -> Seq<(Seq<char>, Record)>
    decreases snapshots.len(),
{
    if snapshots.len() == 0 {
        Seq::empty()
    } else {
        table::put(
            sources_of(snapshots.drop_last()),
            snapshots.last().id,
            record_of(snapshots.last()),
        )
    }
}

pub open spec fn content_of(snapshots: Seq<Capture>) -> Seq<(Seq<char>, Json)>
    decreases snapshots.len(),
{
    if snapshots.len() == 0 {
        Seq::empty()
    } else {
        table::put(
            content_of(snapshots.drop_last()),
            snapshots.last().id,
            snapshots.last().content,
        )
    }
}

pub open spec fn version_in(content: Seq<(Seq<char>, Json)>) -> Seq<char> {
    match table::lookup(content, sources::RULES@) {
        Some(rules) => match json::at(rules, seq!["info"@, "version"@]) {
            Some(Json::Text(version)) => version,
            _ => "unknown"@,
        },
        None => "unknown"@,
    }
}

/// The bundle of some snapshots; of two with one id the later counts.
pub open spec fn bundled(snapshots: Seq<Capture>) -> Payload {
    Payload {
        schema: SCHEMA@,
        upstream_version: version_in(content_of(snapshots)),
        sources: sources_of(snapshots),
        content: content_of(snapshots),
    }
}

fn upstream_version(content: &Table<Doc>) -> (version: String)
    ensures
        version@ == version_in(content.members()),
{
    let path = ["info", "version"];
    assert(json::strs(path@) =~= seq!["info"@, "version"@]);
    match content.member(sources::RULES) {
        Some(rules) => match json::value_at(rules, &path) {
            Some(Doc::Text(version)) => version.clone(),
            _ => "unknown".to_owned(),
        },
        None => "unknown".to_owned(),
    }
}

// As JSON.

pub open spec fn texts_json(m: Seq<(Seq<char>, Seq<char>)>) -> Json {
    Json::Object(table::mapped(m, |s: Seq<char>| Json::Text(s)))
}

pub open spec fn record_json(r: Record) -> Json {
    let v = json::no_members().with("repo"@, Json::Text(r.provenance.repo)).with(
        "path"@,
        Json::Text(r.provenance.path),
    ).with("commit"@, Json::Text(r.provenance.commit)).with(
        "committed_at"@,
        Json::Text(r.provenance.committed_at),
    ).with("raw_sha256"@, Json::Text(r.provenance.raw_sha256)).with(
        "bytes"@,
        Json::PosInt(r.provenance.bytes),
    ).with("content_sha256"@, Json::Text(r.content_sha256)).with(
        "substance_sha256"@,
        Json::Text(r.substance_sha256),
    );
    if r.provenance.files.len() == 0 {
        v
    } else {
        v.with("files"@, texts_json(r.provenance.files))
    }
}

pub open spec fn records_json(m: Seq<(Seq<char>, Record)>) -> Json {
    Json::Object(table::mapped(m, |r: Record| record_json(r)))
}

/// The payload as a document.
pub open spec fn bundle_json(b: Payload) -> Json {
    json::no_members().with("schema"@, Json::Text(b.schema)).with(
        "upstream_version"@,
        Json::Text(b.upstream_version),
    ).with("sources"@, records_json(b.sources)).with("content"@, Json::Object(b.content))
}

pub fn texts_value(m: &Table<String>) -> (v: Doc)
    ensures
        v@ == texts_json(sources::text_map(m@)),
{
    broadcast use json::lemma_members;

    let mut members: Table<Doc> = Table::new();
    let mut i: usize = 0;
    let ghost all = sources::text_map(m@);
    proof {
        use_type_invariant(m);
        m.lemma_in_order();
    }
    assert(members.members() =~= Seq::<(Seq<char>, Json)>::empty());
    while i < m.len()
        invariant
            i <= m@.len(),
            all == sources::text_map(m@),
            table::ordered(m@),
            members.members().len() == i,
            forall|j: int|
                0 <= j < i ==> (#[trigger] members.members()[j]) == (m@[j].0, Json::Text(
                    m@[j].1@,
                )),
        decreases m@.len() - i,
    {
        let value = json::text_value(m.value(i).as_str());
        proof {
            table::lemma_put_at(members.members(), m@[i as int].0, value@, i as int);
        }
        members.set(m.key(i), value);
        i += 1;
    }
    assert(members.members() =~= table::mapped(all, |s: Seq<char>| Json::Text(s)));
    Doc::Object(members)
}

pub fn empty_object() -> (t: Table<Doc>)
    ensures
        Json::Object(t.members()) == json::no_members(),
{
    broadcast use json::lemma_members;

    let t: Table<Doc> = Table::new();
    assert(t.members() =~= Seq::<(Seq<char>, Json)>::empty());
    t
}

impl SourceRecord {
    pub fn duplicate(&self) -> (copy: SourceRecord)
        ensures
            copy@ == self@,
    {
        SourceRecord {
            provenance: self.provenance.duplicate(),
            content_sha256: self.content_sha256.clone(),
            substance_sha256: self.substance_sha256.clone(),
        }
    }

    /// The record as a document.
    pub fn to_value(&self) -> (v: Doc)
        ensures
            v@ == record_json(self@),
    {
        let p = &self.provenance;
        let mut members = empty_object();
        members.set("repo", json::text_value(p.repo.as_str()));
        members.set("path", json::text_value(p.path.as_str()));
        members.set("commit", json::text_value(p.commit.as_str()));
        members.set("committed_at", json::text_value(p.committed_at.as_str()));
        members.set("raw_sha256", json::text_value(p.raw_sha256.as_str()));
        members.set("bytes", json::number_value(p.bytes));
        members.set("content_sha256", json::text_value(self.content_sha256.as_str()));
        members.set("substance_sha256", json::text_value(self.substance_sha256.as_str()));
        assert(self@.provenance.files.len() == p.files@.len());
        if p.files.len() > 0 {
            members.set("files", texts_value(&p.files));
        }
        Doc::Object(members)
    }
}

// From JSON.

pub open spec fn record_in(v: Json) -> Option<Record> {
    match (sources::pin_members(v), v.text_at("content_sha256"@), v.text_at("substance_sha256"@)) {
        (Some(provenance), Some(content_sha256), Some(substance_sha256)) => Some(
            Record { provenance, content_sha256, substance_sha256 },
        ),
        _ => None,
    }
}

/// The records of an object whose values all describe one.
pub open spec fn all_records(m: Seq<(Seq<char>, Json)>) -> Option<Seq<(Seq<char>, Record)>>
    decreases m.len(),
{
    if m.len() == 0 {
        Some(Seq::empty())
    } else {
        match (all_records(m.drop_last()), record_in(m.last().1)) {
            (Some(rest), Some(r)) => Some(rest.push((m.last().0, r))),
            _ => None,
        }
    }
}

pub open spec fn payload_names() -> Seq<Seq<char>> {
    seq![
        "schema"@,
        "upstream_version"@,
        "sources"@,
        "content"@,
    ]
}

/// The payload that a document describes.
pub open spec fn payload_in(v: Json) -> Option<Payload> {
    payload_members(json::named(v, payload_names()))
}

pub open spec fn payload_members(v: Json) -> Option<Payload> {
    match (
        v.text_at("schema"@),
        v.text_at("upstream_version"@),
        v.object_at("sources"@),
        v.object_at("content"@),
    ) {
        (Some(schema), Some(upstream_version), Some(sources), Some(content)) => match all_records(
            sources,
        ) {
            Some(sources) => Some(Payload { schema, upstream_version, sources, content }),
            None => None,
        },
        _ => None,
    }
}

pub open spec fn not_a_bundle() -> Seq<char> {
    "previous chain payload is not a fedramp-aion bundle"@
}

/// The bundle that a signed payload holds.
pub open spec fn parsed_bundle(bytes: Seq<u8>) -> Result<Payload, Seq<char>> {
    match outside::json_parse(bytes) {
        Ok(v) => match payload_in(v) {
            Some(b) => if b.schema == SCHEMA@ {
                Ok(b)
            } else {
                Err(
                    "previous chain payload uses schema "@ + b.schema + ", this build writes "@
                        + SCHEMA@,
                )
            },
            None => Err(not_a_bundle()),
        },
        Err(_) => Err(not_a_bundle()),
    }
}

pub open spec fn payload_or(r: Result<Bundle, Error>) -> Result<Payload, Seq<char>> {
    match r {
        Ok(b) => Ok(b@),
        Err(e) => Err(e@),
    }
}

fn read_record(v: &Doc) -> (r: Option<SourceRecord>)
    ensures
        match r {
            Some(r) => record_in(v@) == Some(r@),
            None => record_in(v@) is None,
        },
{
    match (
        sources::read_provenance(v),
        json::text_member(v, "content_sha256"),
        json::text_member(v, "substance_sha256"),
    ) {
        (Some(provenance), Some(content), Some(substance)) => Some(
            SourceRecord {
                provenance,
                content_sha256: content.to_owned(),
                substance_sha256: substance.to_owned(),
            },
        ),
        _ => None,
    }
}

proof fn lemma_not_all_records(m: Seq<(Seq<char>, Json)>, n: int)
    requires
        0 <= n <= m.len(),
        all_records(m.take(n)) is None,
    ensures
        all_records(m) is None,
    decreases m.len() - n,
{
    if n < m.len() {
        assert(m.take(n + 1).drop_last() =~= m.take(n));
        lemma_not_all_records(m, n + 1);
    } else {
        assert(m.take(n) =~= m);
    }
}

fn read_records(m: &Table<Doc>) -> (r: Option<Table<SourceRecord>>)
    ensures
        match r {
            Some(t) => all_records(m.members()) == Some(records(t@)),
            None => all_records(m.members()) is None,
        },
{
    broadcast use json::lemma_members;

    let mut found: Table<SourceRecord> = Table::new();
    let ghost all = m.members();
    let mut i: usize = 0;
    assert(all_records(all.take(0)) == Some(Seq::<(Seq<char>, Record)>::empty()));
    assert(records(found@) =~= Seq::<(Seq<char>, Record)>::empty());
    proof {
        use_type_invariant(m);
        m.lemma_in_order();
    }
    while i < m.len()
        invariant
            i <= m@.len(),
            table::ordered(m@),
            all == m.members(),
            all == json::deep(m@),
            found@.len() == i,
            forall|j: int| 0 <= j < i ==> (#[trigger] found@[j]).0 == m@[j].0,
            all_records(all.take(i as int)) == Some(records(found@)),
        decreases m@.len() - i,
    {
        proof {
            assert(all.take(i + 1).drop_last() =~= all.take(i as int));
            assert(all.take(i + 1).last() == (m@[i as int].0, m@[i as int].1@));
        }
        match read_record(m.value(i)) {
            Some(record) => {
                proof {
                    table::lemma_put_at(found@, m@[i as int].0, record, i as int);
                    assert(records(found@.push((m@[i as int].0, record))) =~= records(found@).push(
                        (m@[i as int].0, record@),
                    ));
                }
                found.insert(m.key(i).to_owned(), record);
            },
            None => {
                proof {
                    lemma_not_all_records(all, i + 1);
                }
                return None;
            },
        }
        i += 1;
    }
    assert(all.take(all.len() as int) =~= all);
    Some(found)
}

fn read_bundle(v: &Doc) -> (r: Option<Bundle>)
    ensures
        match r {
            Some(b) => payload_in(v@) == Some(b@),
            None => payload_in(v@) is None,
        },
{
    let names = ["schema", "upstream_version", "sources", "content"];
    assert(json::strs(names@) =~= payload_names());
    match json::name_values(v, &names) {
        Some(record) => read_bundle_members(&record),
        None => read_bundle_members(v),
    }
}

fn read_bundle_members(v: &Doc) -> (r: Option<Bundle>)
    ensures
        match r {
            Some(b) => payload_members(v@) == Some(b@),
            None => payload_members(v@) is None,
        },
{
    match (
        json::text_member(v, "schema"),
        json::text_member(v, "upstream_version"),
        json::object_member(v, "sources"),
        json::object_member(v, "content"),
    ) {
        (Some(schema), Some(version), Some(sources), Some(content)) => match read_records(sources) {
            Some(sources) => Some(
                Bundle {
                    schema: schema.to_owned(),
                    upstream_version: version.to_owned(),
                    sources,
                    content: content.duplicate(),
                },
            ),
            None => None,
        },
        _ => None,
    }
}

// Timestamps.

/// Nanoseconds since 1970, where they fit.
pub open spec fn nanos(s: Seq<char>) -> Option<u64> {
    match outside::unix_nanos(s) {
        Some(n) => if 0 <= n <= u64::MAX {
            Some(n as u64)
        } else {
            None
        },
        None => None,
    }
}

pub fn rfc3339_nanos(value: &str) -> (n: Option<u64>)
    ensures
        n == nanos(value@),
{
    match outside::rfc3339_instant(value) {
        Some(n) => if 0 <= n && n <= u64::MAX as i128 {
            Some(n as u64)
        } else {
            None
        },
        None => None,
    }
}

/// The newest commit time among some sources.
pub open spec fn newest(m: Seq<(Seq<char>, Record)>) -> Option<u64>
    decreases m.len(),
{
    if m.len() == 0 {
        None
    } else {
        match (newest(m.drop_last()), nanos(m.last().1.provenance.committed_at)) {
            (Some(a), Some(b)) => Some(
                if b >= a {
                    b
                } else {
                    a
                },
            ),
            (Some(a), None) => Some(a),
            (None, b) => b,
        }
    }
}

pub open spec fn opt_record_text(r: Option<Record>) -> Option<Seq<char>> {
    match r {
        Some(r) => Some(r.substance_sha256),
        None => None,
    }
}

pub open spec fn opt_str(s: Option<&str>) -> Option<Seq<char>> {
    match s {
        Some(s) => Some(s@),
        None => None,
    }
}

/// The digest of a payload's canonical text.
pub open spec fn bundle_digest(b: Payload) -> Result<Seq<char>, Seq<char>> {
    match canon::canonical_text(bundle_json(b)) {
        Ok(bytes) => Ok(canon::hex_of(outside::sha256(bytes))),
        Err(e) => Err(e),
    }
}

impl Bundle {
    pub fn from_snapshots(snapshots: &[Snapshot]) -> (b: Bundle)
        ensures
            b@ == bundled(captures(snapshots@)),
    {
        let mut sources: Table<SourceRecord> = Table::new();
        let mut content = empty_object();
        let ghost all = captures(snapshots@);
        let mut i: usize = 0;
        assert(records(sources@) =~= sources_of(all.take(0)));
        while i < snapshots.len()
            invariant
                i <= snapshots@.len(),
                all == captures(snapshots@),
                records(sources@) == sources_of(all.take(i as int)),
                content.members() == content_of(all.take(i as int)),
            decreases snapshots@.len() - i,
        {
            let snapshot = &snapshots[i];
            let record = SourceRecord {
                provenance: snapshot.provenance.duplicate(),
                content_sha256: snapshot.content_sha256.clone(),
                substance_sha256: snapshot.substance_sha256.clone(),
            };
            proof {
                assert(all.take(i + 1).drop_last() =~= all.take(i as int));
                assert(all.take(i + 1).last() == snapshot@);
                table::lemma_mapped_put(sources@, snapshot.id@, record, |r: SourceRecord| r@);
            }
            sources.insert(snapshot.id.clone(), record);
            content.set(snapshot.id.as_str(), snapshot.content.duplicate());
            i += 1;
        }
        assert(all.take(all.len() as int) =~= all);
        Bundle {
            schema: SCHEMA.to_owned(),
            upstream_version: upstream_version(&content),
            sources,
            content,
        }
    }

    /// The bundle that a signed payload holds. The payload is read as a whole
    /// document first: of a field that is given twice the last value counts,
    /// and a payload nested deeper than `outside::NESTING` is no bundle, even
    /// where only a field that is not asked for is nested so deep.
    pub fn parse(bytes: &[u8]) -> (r: Result<Bundle, Error>)
        ensures
            payload_or(r) == parsed_bundle(bytes@),
    {
        let v = match outside::parse_json(bytes) {
            Ok(v) => v,
            Err(_) => {
                return Err(Error::new("previous chain payload is not a fedramp-aion bundle"));
            },
        };
        match read_bundle(&v) {
            Some(bundle) => {
                if text::same_text(bundle.schema.as_str(), SCHEMA) {
                    Ok(bundle)
                } else {
                    let mut message = "previous chain payload uses schema ".to_owned();
                    message.push_str(bundle.schema.as_str());
                    message.push_str(", this build writes ");
                    message.push_str(SCHEMA);
                    Err(Error { message })
                }
            },
            None => Err(Error::new("previous chain payload is not a fedramp-aion bundle")),
        }
    }

    /// The sources as a document.
    fn sources_value(&self) -> (v: Doc)
        ensures
            v@ == records_json(self@.sources),
    {
        let mut members = empty_object();
        let ghost all = self@.sources;
        let mut i: usize = 0;
        proof {
            use_type_invariant(&self.sources);
            self.sources.lemma_in_order();
        }
        while i < self.sources.len()
            invariant
                i <= self.sources@.len(),
                all == records(self.sources@),
                table::ordered(self.sources@),
                members.members().len() == i,
                forall|j: int|
                    0 <= j < i ==> (#[trigger] members.members()[j]) == (
                        self.sources@[j].0,
                        record_json(self.sources@[j].1@),
                    ),
            decreases self.sources@.len() - i,
        {
            let value = self.sources.value(i).to_value();
            proof {
                table::lemma_put_at(
                    members.members(),
                    self.sources@[i as int].0,
                    value@,
                    i as int,
                );
            }
            members.set(self.sources.key(i), value);
            i += 1;
        }
        assert(members.members() =~= table::mapped(all, |r: Record| record_json(r)));
        Doc::Object(members)
    }

    /// The payload as a document.
    pub fn to_value(&self) -> (v: Doc)
        ensures
            v@ == bundle_json(self@),
    {
        let mut members = empty_object();
        members.set("schema", json::text_value(self.schema.as_str()));
        members.set("upstream_version", json::text_value(self.upstream_version.as_str()));
        members.set("sources", self.sources_value());
        members.set("content", Doc::Object(self.content.duplicate()));
        Doc::Object(members)
    }

    pub fn to_bytes(&self) -> (r: Result<Vec<u8>, Error>)
        ensures
            canon::bytes_or(r) == canon::canonical_text(bundle_json(self@)),
            outside::plain(bundle_json(self@), outside::NESTING as nat) ==> (r matches Ok(bytes)
                && outside::holds_document(bytes@, bundle_json(self@))),
            outside::plain(bundle_json(self@), outside::NESTING as nat) && self@.schema == SCHEMA@
                ==> (r matches Ok(bytes) && parsed_bundle(bytes@) == Ok::<Payload, Seq<char>>(
                self@,
            )),
    {
        proof {
            law_document_reads_back(self@);
        }
        canon::canonical_bytes(&self.to_value())
    }

    pub fn digest(&self) -> (r: Result<String, Error>)
        ensures
            canon::text_or(r) == bundle_digest(self@),
    {
        match self.to_bytes() {
            Ok(bytes) => Ok(canon::sha256_hex(bytes.as_slice())),
            Err(e) => Err(e),
        }
    }

    /// The newest upstream commit time across sources, as unix nanoseconds.
    /// Used as the chain version's timestamp so a replayed run is byte-stable.
    pub fn pinned_timestamp(&self) -> (n: Option<u64>)
        ensures
            n == newest(self@.sources),
    {
        let mut latest: Option<u64> = None;
        let ghost all = self@.sources;
        let mut i: usize = 0;
        while i < self.sources.len()
            invariant
                i <= self.sources@.len(),
                all == records(self.sources@),
                latest == newest(all.take(i as int)),
            decreases self.sources@.len() - i,
        {
            let committed_at = &self.sources.value(i).provenance.committed_at;
            proof {
                assert(all.take(i + 1).drop_last() =~= all.take(i as int));
                assert(all.take(i + 1).last().1.provenance.committed_at == committed_at@);
            }
            latest = match (latest, rfc3339_nanos(committed_at.as_str())) {
                (Some(a), Some(b)) => Some(
                    if b >= a {
                        b
                    } else {
                        a
                    },
                ),
                (Some(a), None) => Some(a),
                (None, b) => b,
            };
            i += 1;
        }
        assert(all.take(all.len() as int) =~= all);
        latest
    }

    pub fn substance(&self, source: &str) -> (found: Option<&str>)
        ensures
            opt_str(found) == opt_record_text(table::lookup(self@.sources, source@)),
    {
        proof {
            table::lemma_mapped_lookup(self.sources@, source@, |r: SourceRecord| r@);
        }
        match self.sources.get(source) {
            Some(record) => Some(record.substance_sha256.as_str()),
            None => None,
        }
    }

    pub fn section(&self, source: &str) -> (found: Option<&Doc>)
        ensures
            json::opt_json(found) == table::lookup(self@.content, source@),
    {
        self.content.member(source)
    }
}

// Reading back what was written.

pub proof fn lemma_texts_read(m: Seq<(Seq<char>, Seq<char>)>)
    ensures
        sources::all_texts(table::mapped(m, |s: Seq<char>| Json::Text(s))) == Some(m),
    decreases m.len(),
{
    let f = |s: Seq<char>| Json::Text(s);
    if m.len() > 0 {
        lemma_texts_read(m.drop_last());
        assert(table::mapped(m, f).drop_last() =~= table::mapped(m.drop_last(), f));
        assert(m.drop_last().push(m.last()) =~= m);
    } else {
        assert(m =~= Seq::empty());
    }
}

proof fn lemma_record_keys()
    ensures
        "repo"@.len() == 4,
        "path"@.len() == 4,
        "repo"@ != "path"@,
        "commit"@.len() == 6,
        "committed_at"@.len() == 12,
        "raw_sha256"@.len() == 10,
        "bytes"@.len() == 5,
        "files"@.len() == 5,
        "bytes"@ != "files"@,
        "content_sha256"@.len() == 14,
        "substance_sha256"@.len() == 16,
{
    reveal_strlit("repo");
    reveal_strlit("path");
    reveal_strlit("commit");
    reveal_strlit("committed_at");
    reveal_strlit("raw_sha256");
    reveal_strlit("bytes");
    reveal_strlit("files");
    reveal_strlit("content_sha256");
    reveal_strlit("substance_sha256");
    assert("repo"@[0] != "path"@[0]);
    assert("bytes"@[0] != "files"@[0]);
}

proof fn lemma_record_read(r: Record)
    ensures
        record_in(record_json(r)) == Some(r),
{
    lemma_record_keys();
    let p = r.provenance;
    let v0 = json::no_members();
    let v1 = v0.with("repo"@, Json::Text(p.repo));
    let v2 = v1.with("path"@, Json::Text(p.path));
    let v3 = v2.with("commit"@, Json::Text(p.commit));
    let v4 = v3.with("committed_at"@, Json::Text(p.committed_at));
    let v5 = v4.with("raw_sha256"@, Json::Text(p.raw_sha256));
    let v6 = v5.with("bytes"@, Json::PosInt(p.bytes));
    let v7 = v6.with("content_sha256"@, Json::Text(r.content_sha256));
    let v8 = v7.with("substance_sha256"@, Json::Text(r.substance_sha256));
    json::lemma_with(v0, "repo"@, Json::Text(p.repo));
    json::lemma_with(v1, "path"@, Json::Text(p.path));
    json::lemma_with(v2, "commit"@, Json::Text(p.commit));
    json::lemma_with(v3, "committed_at"@, Json::Text(p.committed_at));
    json::lemma_with(v4, "raw_sha256"@, Json::Text(p.raw_sha256));
    json::lemma_with(v5, "bytes"@, Json::PosInt(p.bytes));
    json::lemma_with(v6, "content_sha256"@, Json::Text(r.content_sha256));
    json::lemma_with(v7, "substance_sha256"@, Json::Text(r.substance_sha256));
    if p.files.len() > 0 {
        json::lemma_with(v8, "files"@, texts_json(p.files));
        lemma_texts_read(p.files);
    } else {
        assert(p.files =~= Seq::empty());
    }
}

proof fn lemma_records_read(m: Seq<(Seq<char>, Record)>)
    ensures
        all_records(table::mapped(m, |r: Record| record_json(r))) == Some(m),
    decreases m.len(),
{
    let f = |r: Record| record_json(r);
    if m.len() > 0 {
        lemma_records_read(m.drop_last());
        lemma_record_read(m.last().1);
        assert(table::mapped(m, f).drop_last() =~= table::mapped(m.drop_last(), f));
        assert(m.drop_last().push(m.last()) =~= m);
    } else {
        assert(m =~= Seq::empty());
    }
}

/// A payload written as a document reads back as itself.
pub proof fn law_document_reads_back(b: Payload)
    ensures
        payload_in(bundle_json(b)) == Some(b),
{
    reveal_strlit("schema");
    reveal_strlit("upstream_version");
    reveal_strlit("sources");
    reveal_strlit("content");
    assert("sources"@[0] != "content"@[0]);
    let v0 = json::no_members();
    let v1 = v0.with("schema"@, Json::Text(b.schema));
    let v2 = v1.with("upstream_version"@, Json::Text(b.upstream_version));
    let v3 = v2.with("sources"@, records_json(b.sources));
    json::lemma_with(v0, "schema"@, Json::Text(b.schema));
    json::lemma_with(v1, "upstream_version"@, Json::Text(b.upstream_version));
    json::lemma_with(v2, "sources"@, records_json(b.sources));
    json::lemma_with(v3, "content"@, Json::Object(b.content));
    lemma_records_read(b.sources);
}

/// Parsing the bytes of a bundle gives the bundle back, provided that its
/// document is one that canonical JSON carries without loss; `bytes` stands
/// for what `to_bytes` returns.
pub proof fn law_bytes_round_trip(b: Payload, bytes: Seq<u8>)
    requires
        b.schema == SCHEMA@,
        outside::holds_document(bytes, bundle_json(b)),
    ensures
        parsed_bundle(bytes) == Ok::<Payload, Seq<char>>(b),
{
    law_document_reads_back(b);
}

/// The timestamp is that of some source's commit, and no source's is newer.
pub proof fn law_timestamp_is_the_newest(m: Seq<(Seq<char>, Record)>, i: int)
    requires
        0 <= i < m.len(),
        nanos(m[i].1.provenance.committed_at) is Some,
    ensures
        newest(m) matches Some(n) && n >= nanos(m[i].1.provenance.committed_at)->Some_0,
    decreases m.len(),
{
    if i < m.len() - 1 {
        law_timestamp_is_the_newest(m.drop_last(), i);
    }
}

// What a bundle holds.

/// Every snapshot is in the bundle under its id: its content as captured, and a
/// record of where it came from and of its two digests.
pub proof fn law_bundle_holds_every_snapshot(snapshots: Seq<Capture>, i: int)
    requires
        0 <= i < snapshots.len(),
        forall|j: int| i < j < snapshots.len() ==> (#[trigger] snapshots[j]).id != snapshots[i].id,
    ensures
        table::lookup(bundled(snapshots).content, snapshots[i].id) == Some(snapshots[i].content),
        table::lookup(bundled(snapshots).sources, snapshots[i].id) matches Some(r)
            && r.provenance == snapshots[i].provenance && r.content_sha256
            == snapshots[i].content_sha256 && r.substance_sha256 == snapshots[i].substance_sha256,
    decreases snapshots.len(),
{
    let front = snapshots.drop_last();
    let last = snapshots[snapshots.len() - 1];
    lemma_bundle_ordered(front);
    table::lemma_put_lookup(content_of(front), last.id, last.content, snapshots[i].id);
    table::lemma_put_lookup(sources_of(front), last.id, record_of(last), snapshots[i].id);
    if i < front.len() {
        assert(front[i] == snapshots[i]);
        assert forall|j: int| i < j < front.len() implies (#[trigger] front[j]).id
            != front[i].id by {
            assert(snapshots[j] == front[j]);
        }
        law_bundle_holds_every_snapshot(front, i);
        assert(snapshots[snapshots.len() - 1].id != snapshots[i].id);
    }
}

proof fn lemma_bundle_ordered(snapshots: Seq<Capture>)
    ensures
        table::ordered(content_of(snapshots)),
        table::ordered(sources_of(snapshots)),
    decreases snapshots.len(),
{
    if snapshots.len() > 0 {
        let front = snapshots.drop_last();
        lemma_bundle_ordered(front);
        table::lemma_put_ordered(content_of(front), snapshots.last().id, snapshots.last().content);
        table::lemma_put_ordered(
            sources_of(front),
            snapshots.last().id,
            record_of(snapshots.last()),
        );
    }
}

/// A bundle holds nothing but its snapshots, in the order of their ids.
pub proof fn law_bundle_holds_only_snapshots(snapshots: Seq<Capture>, id: Seq<char>)
    ensures
        table::ordered(bundled(snapshots).content),
        table::ordered(bundled(snapshots).sources),
        table::lookup(bundled(snapshots).content, id) is Some <==> exists|i: int|
            0 <= i < snapshots.len() && (#[trigger] snapshots[i]).id == id,
        table::lookup(bundled(snapshots).sources, id) is Some <==> exists|i: int|
            0 <= i < snapshots.len() && (#[trigger] snapshots[i]).id == id,
    decreases snapshots.len(),
{
    lemma_bundle_ordered(snapshots);
    if snapshots.len() > 0 {
        let front = snapshots.drop_last();
        let last = snapshots[snapshots.len() - 1];
        law_bundle_holds_only_snapshots(front, id);
        lemma_bundle_ordered(front);
        table::lemma_put_lookup(content_of(front), last.id, last.content, id);
        table::lemma_put_lookup(sources_of(front), last.id, record_of(last), id);
        if exists|i: int| 0 <= i < front.len() && (#[trigger] front[i]).id == id {
            let i = choose|i: int| 0 <= i < front.len() && (#[trigger] front[i]).id == id;
            assert(snapshots[i] == front[i]);
        }
        if exists|i: int| 0 <= i < snapshots.len() && (#[trigger] snapshots[i]).id == id {
            let i = choose|i: int| 0 <= i < snapshots.len() && (#[trigger] snapshots[i]).id == id;
            if i < front.len() {
                assert(front[i] == snapshots[i]);
            }
        }
    }
}

/// A bundle's version is the one that the rules in it give themselves.
pub proof fn law_version_is_that_of_the_rules(snapshots: Seq<Capture>)
    ensures
        match table::lookup(bundled(snapshots).content, "rules"@) {
            Some(rules) => match rules.get("info"@) {
                Some(info) => match info.get("version"@) {
                    Some(Json::Text(version)) => bundled(snapshots).upstream_version == version,
                    _ => bundled(snapshots).upstream_version == "unknown"@,
                },
                None => bundled(snapshots).upstream_version == "unknown"@,
            },
            None => bundled(snapshots).upstream_version == "unknown"@,
        },
{
    if let Some(rules) = table::lookup(bundled(snapshots).content, "rules"@) {
        let path = seq!["info"@, "version"@];
        json::lemma_at_first(rules, path);
        assert(path.drop_first() =~= seq!["version"@]);
        if let Some(info) = rules.get("info"@) {
            json::lemma_at_first(info, seq!["version"@]);
            assert(seq!["version"@].drop_first() =~= Seq::<Seq<char>>::empty());
        }
    }
}

/// A bundle's timestamp is the time of one of its commits, none of which is
/// later; it has none only where no commit has a time.
pub proof fn law_timestamp_is_a_commits(m: Seq<(Seq<char>, Record)>)
    ensures
        newest(m) matches Some(n) ==> exists|i: int|
            0 <= i < m.len() && nanos((#[trigger] m[i]).1.provenance.committed_at) == Some(n),
        newest(m) is None ==> forall|i: int|
            0 <= i < m.len() ==> nanos((#[trigger] m[i]).1.provenance.committed_at) is None,
    decreases m.len(),
{
    if m.len() > 0 {
        let front = m.drop_last();
        law_timestamp_is_a_commits(front);
        let last = m[m.len() - 1];
        if let Some(n) = newest(m) {
            if nanos(last.1.provenance.committed_at) != Some(n) {
                let i = choose|i: int|
                    0 <= i < front.len() && nanos((#[trigger] front[i]).1.provenance.committed_at)
                        == Some(n);
                assert(m[i] == front[i]);
            }
        } else {
            assert forall|i: int| 0 <= i < m.len() implies nanos(
                (#[trigger] m[i]).1.provenance.committed_at,
            ) is None by {
                if i < front.len() {
                    assert(front[i] == m[i]);
                }
            }
        }
    }
}

/// A time counts where it parses and fits in 64 unsigned bits, as its nanoseconds.
pub proof fn law_times_count_in_nanoseconds(s: Seq<char>)
    ensures
        nanos(s) matches Some(n) ==> outside::unix_nanos(s) == Some(n as i128),
        nanos(s) is Some <==> (outside::unix_nanos(s) matches Some(n) && 0 <= n && n <= u64::MAX),
{
}

/// A bundle's document has each part of it under its own name.
pub proof fn law_bundle_document_names_its_parts(b: Payload)
    ensures
        bundle_json(b).get("schema"@) == Some(Json::Text(b.schema)),
        bundle_json(b).get("upstream_version"@) == Some(Json::Text(b.upstream_version)),
        bundle_json(b).get("content"@) == Some(Json::Object(b.content)),
        forall|id: Seq<char>|
            table::lookup(b.sources, id) matches Some(r) ==> (#[trigger] bundle_json(b).get2(
                "sources"@,
                id,
            )) == Some(record_json(r)),
{
    reveal_strlit("schema");
    reveal_strlit("upstream_version");
    reveal_strlit("sources");
    reveal_strlit("content");
    assert("schema"@.len() == 6);
    assert("upstream_version"@.len() == 16);
    assert("sources"@.len() == 7);
    assert("content"@.len() == 7);
    assert("sources"@[0] == 's');
    assert("content"@[0] == 'c');
    let v0 = json::no_members();
    let v1 = v0.with("schema"@, Json::Text(b.schema));
    let v2 = v1.with("upstream_version"@, Json::Text(b.upstream_version));
    let v3 = v2.with("sources"@, records_json(b.sources));
    json::lemma_with(v0, "schema"@, Json::Text(b.schema));
    json::lemma_with(v1, "upstream_version"@, Json::Text(b.upstream_version));
    json::lemma_with(v2, "sources"@, records_json(b.sources));
    json::lemma_with(v3, "content"@, Json::Object(b.content));
    assert forall|id: Seq<char>|
        table::lookup(b.sources, id) matches Some(r) implies (#[trigger] bundle_json(b).get2(
        "sources"@,
        id,
    )) == Some(record_json(table::lookup(b.sources, id)->0)) by {
        table::lemma_mapped_lookup(b.sources, id, |r: Record| record_json(r));
    }
}

/// A source's record has each part of it under its own name.
pub proof fn law_record_names_its_parts(r: Record)
    ensures
        record_json(r).get("repo"@) == Some(Json::Text(r.provenance.repo)),
        record_json(r).get("path"@) == Some(Json::Text(r.provenance.path)),
        record_json(r).get("commit"@) == Some(Json::Text(r.provenance.commit)),
        record_json(r).get("committed_at"@) == Some(Json::Text(r.provenance.committed_at)),
        record_json(r).get("raw_sha256"@) == Some(Json::Text(r.provenance.raw_sha256)),
        record_json(r).get("bytes"@) == Some(Json::PosInt(r.provenance.bytes)),
        record_json(r).get("content_sha256"@) == Some(Json::Text(r.content_sha256)),
        record_json(r).get("substance_sha256"@) == Some(Json::Text(r.substance_sha256)),
        r.provenance.files.len() == 0 ==> record_json(r).get("files"@) is None,
{
    lemma_record_keys();
    let p = r.provenance;
    let v0 = json::no_members();
    let v1 = v0.with("repo"@, Json::Text(p.repo));
    let v2 = v1.with("path"@, Json::Text(p.path));
    let v3 = v2.with("commit"@, Json::Text(p.commit));
    let v4 = v3.with("committed_at"@, Json::Text(p.committed_at));
    let v5 = v4.with("raw_sha256"@, Json::Text(p.raw_sha256));
    let v6 = v5.with("bytes"@, Json::PosInt(p.bytes));
    let v7 = v6.with("content_sha256"@, Json::Text(r.content_sha256));
    let v8 = v7.with("substance_sha256"@, Json::Text(r.substance_sha256));
    json::lemma_with(v0, "repo"@, Json::Text(p.repo));
    json::lemma_with(v1, "path"@, Json::Text(p.path));
    json::lemma_with(v2, "commit"@, Json::Text(p.commit));
    json::lemma_with(v3, "committed_at"@, Json::Text(p.committed_at));
    json::lemma_with(v4, "raw_sha256"@, Json::Text(p.raw_sha256));
    json::lemma_with(v5, "bytes"@, Json::PosInt(p.bytes));
    json::lemma_with(v6, "content_sha256"@, Json::Text(r.content_sha256));
    json::lemma_with(v7, "substance_sha256"@, Json::Text(r.substance_sha256));
    json::lemma_with(v8, "files"@, texts_json(p.files));
}

/// A bundle's digest is the SHA-256 of its canonical document, written in hex.
pub proof fn law_bundle_digest_is_of_its_document(b: Payload)
    ensures
        bundle_digest(b) is Ok <==> canon::canonical_text(bundle_json(b)) is Ok,
        bundle_digest(b) matches Ok(hex) ==> canon::bytes_of_hex(hex) == Ok::<Seq<u8>, Seq<char>>(
            outside::sha256(canon::canonical_text(bundle_json(b))->Ok_0),
        ),
{
    canon::law_digest_is_of_the_canonical_bytes(bundle_json(b));
}

/// Only a bundle of this library's own schema is read.
pub proof fn law_foreign_bundle_is_refused(bytes: Seq<u8>)
    ensures
        parsed_bundle(bytes) matches Ok(b) ==> b.schema == "fedramp-aion/1"@ && (
        outside::json_parse(bytes) matches Ok(v) && payload_in(v) == Some(b)),
        outside::json_parse(bytes) is Err ==> parsed_bundle(bytes) is Err,
        outside::json_parse(bytes) matches Ok(v) ==> (payload_in(v) matches Some(b) ==> (b.schema
            == "fedramp-aion/1"@ ==> parsed_bundle(bytes) is Ok)),
{
}

} // verus!
