//! What is ingested: the source registry, and snapshots built from fetched
//! bytes.

use vstd::prelude::*;

use crate::canon;
use crate::error::Error;
use crate::json;
use crate::json::{Doc, Json};
use crate::outside;
use crate::table;
use crate::table::Table;
use crate::text;

verus! {

pub const RULES: &'static str = "rules";

pub const SCHEMAS: &'static str = "schemas";

pub const MARKETPLACE: &'static str = "marketplace";

pub const OSCAL: &'static str = "oscal";

pub const KEV: &'static str = "kev";

/// Where a source lives and how its substance projection is taken.
#[derive(Debug, Clone)]
pub struct SourceSpec {
    pub id: &'static str,
    pub repo: &'static str,
    pub path: &'static str,
    /// Directory sources fetch every `*.json` under `path`.
    pub is_dir: bool,
    /// Paths stripped before the substance digest; NIST's OSCAL publishes
    /// churn in more than one place.
    pub volatile: Vec<Vec<&'static str>>,
}

/// What a source's registration says.
pub struct Registration {
    pub id: Seq<char>,
    pub repo: Seq<char>,
    pub path: Seq<char>,
    pub is_dir: bool,
    pub volatile: Seq<Seq<Seq<char>>>,
}

impl View for SourceSpec {
    type V = Registration;

    open spec fn view(&self) -> Registration {
        Registration {
            id: self.id@,
            repo: self.repo@,
            path: self.path@,
            is_dir: self.is_dir,
            volatile: canon::str_paths(self.volatile@),
        }
    }
}

pub open spec fn rules_source() -> Registration {
    Registration {
        id: RULES@,
        repo: "FedRAMP/rules"@,
        path: "fedramp-consolidated-rules.json"@,
        is_dir: false,
        volatile: seq![seq!["info"@, "last_updated"@]],
    }
}

pub open spec fn schemas_source() -> Registration {
    Registration {
        id: SCHEMAS@,
        repo: "FedRAMP/schemas"@,
        path: ""@,
        is_dir: true,
        volatile: Seq::empty(),
    }
}

/// NIST republishes with a fresh document uuid, a new last-modified, and a
/// bumped oscal-version while the control text is byte-identical.
pub open spec fn oscal_source() -> Registration {
    Registration {
        id: OSCAL@,
        repo: "usnistgov/oscal-content"@,
        path: "nist.gov/SP800-53/rev5/json/NIST_SP-800-53_rev5_catalog-min.json"@,
        is_dir: false,
        volatile: seq![
            seq!["catalog"@, "uuid"@],
            seq!["catalog"@, "metadata"@, "last-modified"@],
            seq!["catalog"@, "metadata"@, "oscal-version"@],
        ],
    }
}

pub open spec fn marketplace_source() -> Registration {
    Registration {
        id: MARKETPLACE@,
        repo: "FedRAMP/marketplace-fedramp-gov-data"@,
        path: "data.json"@,
        is_dir: false,
        volatile: seq![seq!["meta"@]],
    }
}

pub open spec fn registered() -> Seq<Registration> {
    seq![rules_source(), schemas_source(), oscal_source(), marketplace_source()]
}

/// The registration of a source id.
pub open spec fn registration(id: Seq<char>) -> Option<Registration> {
    if id == RULES@ {
        Some(rules_source())
    } else if id == SCHEMAS@ {
        Some(schemas_source())
    } else if id == OSCAL@ {
        Some(oscal_source())
    } else if id == MARKETPLACE@ {
        Some(marketplace_source())
    } else {
        None
    }
}

pub open spec fn registrations(specs: Seq<SourceSpec>) -> Seq<Registration> {
    specs.map_values(|s: SourceSpec| s@)
}

fn rules_spec() -> (s: SourceSpec)
    ensures
        s@ == rules_source(),
{
    let path = vec!["info", "last_updated"];
    assert(json::strs(path@) =~= seq!["info"@, "last_updated"@]);
    let volatile = vec![path];
    assert(canon::str_paths(volatile@) =~= rules_source().volatile);
    SourceSpec {
        id: RULES,
        repo: "FedRAMP/rules",
        path: "fedramp-consolidated-rules.json",
        is_dir: false,
        volatile,
    }
}

fn schemas_spec() -> (s: SourceSpec)
    ensures
        s@ == schemas_source(),
{
    let volatile: Vec<Vec<&'static str>> = Vec::new();
    assert(canon::str_paths(volatile@) =~= schemas_source().volatile);
    SourceSpec { id: SCHEMAS, repo: "FedRAMP/schemas", path: "", is_dir: true, volatile }
}

fn oscal_spec() -> (s: SourceSpec)
    ensures
        s@ == oscal_source(),
{
    let uuid = vec!["catalog", "uuid"];
    let modified = vec!["catalog", "metadata", "last-modified"];
    let version = vec!["catalog", "metadata", "oscal-version"];
    assert(json::strs(uuid@) =~= seq!["catalog"@, "uuid"@]);
    assert(json::strs(modified@) =~= seq!["catalog"@, "metadata"@, "last-modified"@]);
    assert(json::strs(version@) =~= seq!["catalog"@, "metadata"@, "oscal-version"@]);
    let volatile = vec![uuid, modified, version];
    assert(canon::str_paths(volatile@) =~= oscal_source().volatile);
    SourceSpec {
        id: OSCAL,
        repo: "usnistgov/oscal-content",
        path: "nist.gov/SP800-53/rev5/json/NIST_SP-800-53_rev5_catalog-min.json",
        is_dir: false,
        volatile,
    }
}

fn marketplace_spec() -> (s: SourceSpec)
    ensures
        s@ == marketplace_source(),
{
    let path = vec!["meta"];
    assert(json::strs(path@) =~= seq!["meta"@]);
    let volatile = vec![path];
    assert(canon::str_paths(volatile@) =~= marketplace_source().volatile);
    SourceSpec {
        id: MARKETPLACE,
        repo: "FedRAMP/marketplace-fedramp-gov-data",
        path: "data.json",
        is_dir: false,
        volatile,
    }
}

/// Every source of a bundle.
pub fn sources() -> (specs: Vec<SourceSpec>)
    ensures
        registrations(specs@) == registered(),
{
    let specs = vec![rules_spec(), schemas_spec(), oscal_spec(), marketplace_spec()];
    assert(registrations(specs@) =~= registered());
    specs
}

/// The registration of a known source.
pub fn spec_of(id: &str) -> (s: SourceSpec)
    requires
        registration(id@) is Some,
    ensures
        registration(id@) == Some(s@),
{
    if text::same_text(id, RULES) {
        rules_spec()
    } else if text::same_text(id, SCHEMAS) {
        schemas_spec()
    } else if text::same_text(id, OSCAL) {
        oscal_spec()
    } else {
        marketplace_spec()
    }
}

pub fn is_source(id: &str) -> (yes: bool)
    ensures
        yes == (registration(id@) is Some),
{
    text::same_text(id, RULES) || text::same_text(id, SCHEMAS) || text::same_text(id, OSCAL)
        || text::same_text(id, MARKETPLACE)
}

// Provenance.

/// Immutable pin describing exactly which upstream bytes produced a snapshot.
#[derive(Debug)]
pub struct Provenance {
    pub repo: String,
    pub path: String,
    pub commit: String,
    pub committed_at: String,
    pub raw_sha256: String,
    pub bytes: u64,
    pub files: Table<String>,
}

/// What a pin says.
pub struct Pin {
    pub repo: Seq<char>,
    pub path: Seq<char>,
    pub commit: Seq<char>,
    pub committed_at: Seq<char>,
    pub raw_sha256: Seq<char>,
    pub bytes: u64,
    pub files: Seq<(Seq<char>, Seq<char>)>,
}

pub open spec fn text_map(m: Seq<(Seq<char>, String)>) -> Seq<(Seq<char>, Seq<char>)> {
    table::mapped(m, |s: String| s@)
}

impl View for Provenance {
    type V = Pin;

    open spec fn view(&self) -> Pin {
        Pin {
            repo: self.repo@,
            path: self.path@,
            commit: self.commit@,
            committed_at: self.committed_at@,
            raw_sha256: self.raw_sha256@,
            bytes: self.bytes,
            files: text_map(self.files@),
        }
    }
}

pub fn copy_texts(m: &Table<String>) -> (copy: Table<String>)
    ensures
        text_map(copy@) == text_map(m@),
{
    let mut copy: Table<String> = Table::new();
    let mut i: usize = 0;
    let ghost f = |s: String| s@;
    assert(text_map(m@.take(0)) =~= text_map(copy@));
    proof {
        use_type_invariant(m);
        m.lemma_in_order();
    }
    while i < m.len()
        invariant
            i <= m@.len(),
            table::ordered(m@),
            copy@.len() == i,
            forall|j: int| 0 <= j < i ==> (#[trigger] copy@[j]).0 == m@[j].0 && copy@[j].1@ == m@[j].1@,
        decreases m@.len() - i,
    {
        proof {
            table::lemma_put_at(copy@, m@[i as int].0, m@[i as int].1, i as int);
        }
        copy.insert(m.key(i).to_owned(), m.value(i).clone());
        i += 1;
    }
    assert(text_map(copy@) =~= text_map(m@));
    copy
}

impl Provenance {
    pub fn duplicate(&self) -> (copy: Provenance)
        ensures
            copy@ == self@,
    {
        Provenance {
            repo: self.repo.clone(),
            path: self.path.clone(),
            commit: self.commit.clone(),
            committed_at: self.committed_at.clone(),
            raw_sha256: self.raw_sha256.clone(),
            bytes: self.bytes,
            files: copy_texts(&self.files),
        }
    }
}

/// The texts of an object whose values are all texts.
pub open spec fn all_texts(m: Seq<(Seq<char>, Json)>) -> Option<Seq<(Seq<char>, Seq<char>)>>
    decreases m.len(),
{
    if m.len() == 0 {
        Some(Seq::empty())
    } else {
        match (all_texts(m.drop_last()), m.last().1) {
            (Some(rest), Json::Text(s)) => Some(rest.push((m.last().0, s))),
            _ => None,
        }
    }
}

/// Digests by file name; absent means none.
pub open spec fn files_in(v: Option<Json>) -> Option<Seq<(Seq<char>, Seq<char>)>> {
    match v {
        None => Some(Seq::empty()),
        Some(Json::Object(m)) => all_texts(m),
        Some(_) => None,
    }
}

pub open spec fn pin_names() -> Seq<Seq<char>> {
    seq![
        "repo"@,
        "path"@,
        "commit"@,
        "committed_at"@,
        "raw_sha256"@,
        "bytes"@,
        "files"@,
    ]
}

/// The pin that a document describes. As a list of values it may leave out the
/// files, which stand last.
pub open spec fn pin_in(v: Json) -> Option<Pin> {
    pin_members(json::named(json::named(v, pin_names()), pin_names().drop_last()))
}

/// The pin among a document's members.
pub open spec fn pin_members(v: Json) -> Option<Pin> {
    match (
        v.text_at("repo"@),
        v.text_at("path"@),
        v.text_at("commit"@),
        v.text_at("committed_at"@),
        v.text_at("raw_sha256"@),
        v.number_at("bytes"@),
        files_in(v.get("files"@)),
    ) {
        (
            Some(repo),
            Some(path),
            Some(commit),
            Some(committed_at),
            Some(raw_sha256),
            Some(bytes),
            Some(files),
        ) => Some(Pin { repo, path, commit, committed_at, raw_sha256, bytes, files }),
        _ => None,
    }
}

pub fn read_texts(m: &Table<Doc>) -> (r: Option<Table<String>>)
    ensures
        match r {
            Some(t) => all_texts(m.members()) == Some(text_map(t@)),
            None => all_texts(m.members()) is None,
        },
{
    broadcast use json::lemma_members;

    let mut found: Table<String> = Table::new();
    let ghost all = m.members();
    let mut i: usize = 0;
    assert(all_texts(all.take(0)) == Some(Seq::<(Seq<char>, Seq<char>)>::empty()));
    assert(text_map(found@) =~= Seq::<(Seq<char>, Seq<char>)>::empty());
    proof {
        use_type_invariant(m);
        m.lemma_in_order();
    }
    while i < m.len()
        invariant
            i <= m@.len(),
            table::ordered(m@),
            all == m.members(),
            all == json::deep(m@),
            found@.len() == i,
            forall|j: int| 0 <= j < i ==> (#[trigger] found@[j]).0 == m@[j].0,
            all_texts(all.take(i as int)) == Some(text_map(found@)),
        decreases m@.len() - i,
    {
        proof {
            assert(all.take(i + 1).drop_last() =~= all.take(i as int));
            assert(all.take(i + 1).last() == (m@[i as int].0, m@[i as int].1@));
        }
        match m.value(i).as_str() {
            Some(s) => {
                let s = s.to_owned();
                proof {
                    table::lemma_put_at(found@, m@[i as int].0, s, i as int);
                    assert(text_map(found@.push((m@[i as int].0, s))) =~= text_map(found@).push(
                        (m@[i as int].0, s@),
                    ));
                }
                found.insert(m.key(i).to_owned(), s);
            },
            None => {
                proof {
                    lemma_not_all_texts(all, i + 1);
                }
                return None;
            },
        }
        i += 1;
    }
    assert(all.take(all.len() as int) =~= all);
    Some(found)
}

proof fn lemma_not_all_texts(m: Seq<(Seq<char>, Json)>, n: int)
    requires
        0 <= n <= m.len(),
        all_texts(m.take(n)) is None,
    ensures
        all_texts(m) is None,
    decreases m.len() - n,
{
    if n < m.len() {
        assert(m.take(n + 1).drop_last() =~= m.take(n));
        lemma_not_all_texts(m, n + 1);
    } else {
        assert(m.take(n) =~= m);
    }
}

fn read_recorded(v: &Doc) -> (r: Option<Provenance>)
    ensures
        match r {
            Some(p) => pin_in(v@) == Some(p@),
            None => pin_in(v@) is None,
        },
{
    let names = ["repo", "path", "commit", "committed_at", "raw_sha256", "bytes", "files"];
    let fewer = ["repo", "path", "commit", "committed_at", "raw_sha256", "bytes"];
    assert(json::strs(names@) =~= pin_names());
    assert(json::strs(fewer@) =~= pin_names().drop_last());
    match json::name_values(v, &names) {
        Some(record) => read_provenance(&record),
        None => match json::name_values(v, &fewer) {
            Some(record) => read_provenance(&record),
            None => read_provenance(v),
        },
    }
}

pub fn read_provenance(v: &Doc) -> (r: Option<Provenance>)
    ensures
        match r {
            Some(p) => pin_members(v@) == Some(p@),
            None => pin_members(v@) is None,
        },
{
    let files: Table<String> = match v.get("files") {
        None => {
            let none: Table<String> = Table::new();
            assert(text_map(none@) =~= Seq::<(Seq<char>, Seq<char>)>::empty());
            none
        },
        Some(Doc::Object(m)) => match read_texts(m) {
            Some(files) => files,
            None => {
                return None;
            },
        },
        Some(_) => {
            return None;
        },
    };
    match (
        json::text_member(v, "repo"),
        json::text_member(v, "path"),
        json::text_member(v, "commit"),
        json::text_member(v, "committed_at"),
        json::text_member(v, "raw_sha256"),
        json::number_member(v, "bytes"),
    ) {
        (
            Some(repo),
            Some(path),
            Some(commit),
            Some(committed_at),
            Some(raw_sha256),
            Some(bytes),
        ) => Some(
            Provenance {
                repo: repo.to_owned(),
                path: path.to_owned(),
                commit: commit.to_owned(),
                committed_at: committed_at.to_owned(),
                raw_sha256: raw_sha256.to_owned(),
                bytes,
                files,
            },
        ),
        _ => None,
    }
}

// Snapshots.

/// A canonicalized source at a pinned commit.
#[derive(Debug)]
pub struct Snapshot {
    pub id: String,
    pub provenance: Provenance,
    pub content: Doc,
    pub content_sha256: String,
    pub substance_sha256: String,
}

/// What a snapshot holds.
pub struct Capture {
    pub id: Seq<char>,
    pub provenance: Pin,
    pub content: Json,
    pub content_sha256: Seq<char>,
    pub substance_sha256: Seq<char>,
}

impl View for Snapshot {
    type V = Capture;

    open spec fn view(&self) -> Capture {
        Capture {
            id: self.id@,
            provenance: self.provenance@,
            content: self.content@,
            content_sha256: self.content_sha256@,
            substance_sha256: self.substance_sha256@,
        }
    }
}

pub open spec fn capture_or(r: Result<Snapshot, Error>) -> Result<Capture, Seq<char>> {
    match r {
        Ok(s) => Ok(s@),
        Err(e) => Err(e@),
    }
}

/// What of a source's content counts as a change.
pub open spec fn substance_of(id: Seq<char>, content: Json) -> Json {
    match registration(id) {
        Some(r) => canon::stripped_all(content, r.volatile),
        None => content,
    }
}

pub open spec fn captured(id: Seq<char>, pin: Pin, content: Json) -> Result<Capture, Seq<char>> {
    match (
        canon::document_digest(content),
        canon::document_digest(substance_of(id, content)),
    ) {
        (Ok(content_sha256), Ok(substance_sha256)) => Ok(
            Capture { id, provenance: pin, content, content_sha256, substance_sha256 },
        ),
        (Err(e), _) => Err(e),
        (_, Err(e)) => Err(e),
    }
}

impl Snapshot {
    pub fn build(id: &str, provenance: Provenance, content: Doc) -> (r: Result<Snapshot, Error>)
        requires
            registration(id@) is Some,
        ensures
            capture_or(r) == captured(id@, provenance@, content@),
    {
        let source = spec_of(id);
        let substance = canon::without_all(&content, &source.volatile);
        match canon::digest_value(&content) {
            Ok(content_sha256) => match canon::digest_value(&substance) {
                Ok(substance_sha256) => Ok(
                    Snapshot {
                        id: id.to_owned(),
                        provenance,
                        content,
                        content_sha256,
                        substance_sha256,
                    },
                ),
                Err(e) => Err(e),
            },
            Err(e) => Err(e),
        }
    }
}

/// Where source bytes come from: over HTTP, which pins `main` to a commit, or
/// from a directory of captured snapshots, so the logic can be exercised
/// offline.
#[derive(Debug, Clone, PartialEq, Eq)]
pub enum Fetcher {
    Http { token: Option<String> },
    Dir { root: String },
}

/// A directory wins over the network.
pub fn fetcher(from_dir: Option<String>, token: Option<String>) -> (f: Fetcher)
    ensures
        f == (match from_dir {
            Some(root) => Fetcher::Dir { root },
            None => Fetcher::Http { token },
        }),
{
    match from_dir {
        Some(root) => Fetcher::Dir { root },
        None => Fetcher::Http { token },
    }
}

// Fetching: what to ask for, and what to make of the reply.

/// Where the commit that last touched `path` is listed (no path: the
/// repository's tip).
pub open spec fn commit_listing(repo: Seq<char>, path: Seq<char>) -> Seq<char> {
    if path == ""@ {
        "https://api.github.com/repos/"@ + repo + "/commits?per_page=1"@
    } else {
        "https://api.github.com/repos/"@ + repo + "/commits?path="@ + path + "&per_page=1"@
    }
}

pub fn commit_listing_url(repo: &str, path: &str) -> (url: String)
    ensures
        url@ == commit_listing(repo@, path@),
{
    let mut url = "https://api.github.com/repos/".to_owned();
    url.push_str(repo);
    if text::same_text(path, "") {
        url.push_str("/commits?per_page=1");
    } else {
        url.push_str("/commits?path=");
        url.push_str(path);
        url.push_str("&per_page=1");
    }
    url
}

pub fn raw_url(repo: &str, commit: &str, path: &str) -> (url: String)
    ensures
        url@ == "https://raw.githubusercontent.com/"@ + repo@ + "/"@ + commit@ + "/"@ + path@,
{
    let mut url = "https://raw.githubusercontent.com/".to_owned();
    url.push_str(repo);
    url.push_str("/");
    url.push_str(commit);
    url.push_str("/");
    url.push_str(path);
    url
}

pub fn contents_url(repo: &str, commit: &str) -> (url: String)
    ensures
        url@ == "https://api.github.com/repos/"@ + repo@ + "/contents/?ref="@ + commit@,
{
    let mut url = "https://api.github.com/repos/".to_owned();
    url.push_str(repo);
    url.push_str("/contents/?ref=");
    url.push_str(commit);
    url
}

/// The newest commit in a listing: its hash and its committer date.
pub open spec fn commit_in(
    listing: Json,
    repo: Seq<char>,
    path: Seq<char>,
) -> Result<(Seq<char>, Seq<char>), Seq<char>> {
    match listing {
        Json::Array(commits) => if commits.len() == 0 {
            Err("no commits found for "@ + repo + ":"@ + path)
        } else {
            match (
                commits[0].text_at("sha"@),
                json::at(commits[0], seq!["commit"@, "committer"@, "date"@]),
            ) {
                (None, _) => Err("commit listing had no sha"@),
                (Some(sha), Some(Json::Text(date))) => Ok((sha, date)),
                _ => Err("commit listing had no committer date"@),
            }
        },
        _ => Err("no commits found for "@ + repo + ":"@ + path),
    }
}

pub open spec fn resolved(
    body: Seq<u8>,
    repo: Seq<char>,
    path: Seq<char>,
) -> Result<(Seq<char>, Seq<char>), Seq<char>> {
    match outside::json_parse(body) {
        Ok(listing) => commit_in(listing, repo, path),
        Err(_) => Err("commit listing for "@ + repo + " was not JSON"@),
    }
}

pub open spec fn pair_or(r: Result<(String, String), Error>) -> Result<
    (Seq<char>, Seq<char>),
    Seq<char>,
> {
    match r {
        Ok(p) => Ok((p.0@, p.1@)),
        Err(e) => Err(e@),
    }
}

fn no_commits(repo: &str, path: &str) -> (e: Error)
    ensures
        e@ == "no commits found for "@ + repo@ + ":"@ + path@,
{
    let mut message = "no commits found for ".to_owned();
    message.push_str(repo);
    message.push_str(":");
    message.push_str(path);
    Error { message }
}

/// The newest commit in a listing: its hash and its committer date.
pub fn head_commit(listing: &Doc, repo: &str, path: &str) -> (r: Result<(String, String), Error>)
    ensures
        pair_or(r) == commit_in(listing@, repo@, path@),
{
    broadcast use json::lemma_array_json;

    match listing {
        Doc::Array(commits) => {
            if commits.len() == 0 {
                return Err(no_commits(repo, path));
            }
            let head = &commits[0];
            let steps = ["commit", "committer", "date"];
            assert(json::strs(steps@) =~= seq!["commit"@, "committer"@, "date"@]);
            match json::text_member(head, "sha") {
                Some(sha) => match json::value_at(head, &steps) {
                    Some(Doc::Text(date)) => Ok((sha.to_owned(), date.clone())),
                    _ => Err(Error::new("commit listing had no committer date")),
                },
                None => Err(Error::new("commit listing had no sha")),
            }
        },
        _ => Err(no_commits(repo, path)),
    }
}

/// The commit that a listing's reply resolves a path to.
pub fn resolve_commit(body: &[u8], repo: &str, path: &str) -> (r: Result<(String, String), Error>)
    ensures
        pair_or(r) == resolved(body@, repo@, path@),
{
    match outside::parse_json(body) {
        Ok(listing) => head_commit(&listing, repo, path),
        Err(_) => Err(Error::about("commit listing for ", repo, " was not JSON")),
    }
}

pub open spec fn file_capture(
    source: Registration,
    commit: Seq<char>,
    committed_at: Seq<char>,
    raw: Seq<u8>,
) -> Result<Capture, Seq<char>> {
    match canon::canonical_document(raw) {
        Ok(content) => captured(
            source.id,
            Pin {
                repo: source.repo,
                path: source.path,
                commit,
                committed_at,
                raw_sha256: canon::hex_of(outside::sha256(raw)),
                bytes: raw.len() as u64,
                files: Seq::empty(),
            },
            content,
        ),
        Err(e) => Err(e),
    }
}

fn no_files() -> (none: Table<String>)
    ensures
        text_map(none@) == Seq::<(Seq<char>, Seq<char>)>::empty(),
{
    let none: Table<String> = Table::new();
    assert(text_map(none@) =~= Seq::<(Seq<char>, Seq<char>)>::empty());
    none
}

/// The snapshot of a one-file source, from its bytes at a pinned commit.
pub fn file_snapshot(source: &SourceSpec, commit: &str, committed_at: &str, raw: &[u8]) -> (r: Result<
    Snapshot,
    Error,
>)
    requires
        registration(source@.id) is Some,
    ensures
        capture_or(r) == file_capture(source@, commit@, committed_at@, raw@),
{
    match canon::canonicalize(raw) {
        Ok(content) => {
            let provenance = Provenance {
                repo: source.repo.to_owned(),
                path: source.path.to_owned(),
                commit: commit.to_owned(),
                committed_at: committed_at.to_owned(),
                raw_sha256: canon::sha256_hex(raw),
                bytes: raw.len() as u64,
                files: no_files(),
            };
            Snapshot::build(source.id, provenance, content)
        },
        Err(e) => Err(e),
    }
}

// Directory sources.

/// The path components that name something.
pub open spec fn components(parts: Seq<Seq<char>>) -> Seq<Seq<char>>
    decreases parts.len(),
{
    if parts.len() == 0 {
        Seq::empty()
    } else {
        let rest = components(parts.drop_last());
        if parts.last() == ""@ || parts.last() == "."@ {
            rest
        } else {
            rest.push(parts.last())
        }
    }
}

/// What follows the last dot of a path's final component, where that dot is
/// not its first character.
pub open spec fn extension(name: Seq<char>) -> Option<Seq<char>> {
    let named = components(text::split(name, '/'));
    if named.len() == 0 || named.last() == ".."@ {
        None
    } else {
        let pieces = text::split(named.last(), '.');
        if pieces.len() < 2 || (pieces.len() == 2 && pieces[0] == ""@) {
            None
        } else {
            Some(pieces.last())
        }
    }
}

fn last_component(name: &str) -> (last: Option<String>)
    ensures
        text::opt_text(last) == (if components(text::split(name@, '/')).len() == 0 {
            None
        } else {
            Some(components(text::split(name@, '/')).last())
        }),
{
    let parts = text::split_text(name, '/');
    let ghost all = text::texts(parts@);
    let mut last: Option<String> = None;
    let mut i: usize = 0;
    while i < parts.len()
        invariant
            i <= parts@.len(),
            all == text::texts(parts@),
            text::opt_text(last) == (if components(all.take(i as int)).len() == 0 {
                None
            } else {
                Some(components(all.take(i as int)).last())
            }),
        decreases parts@.len() - i,
    {
        proof {
            assert(all.take(i + 1).drop_last() =~= all.take(i as int));
            assert(all.take(i + 1).last() == parts@[i as int]@);
        }
        if !text::same_text(parts[i].as_str(), "") && !text::same_text(parts[i].as_str(), ".") {
            last = Some(parts[i].clone());
        }
        i += 1;
    }
    assert(all.take(all.len() as int) =~= all);
    last
}

pub fn extension_of(name: &str) -> (found: Option<String>)
    ensures
        text::opt_text(found) == extension(name@),
{
    match last_component(name) {
        Some(file) => {
            if text::same_text(file.as_str(), "..") {
                return None;
            }
            let pieces = text::split_text(file.as_str(), '.');
            let n: usize = pieces.len();
            assert(text::texts(pieces@).len() == n);
            assert(text::texts(pieces@)[0] == pieces@[0]@);
            assert(text::texts(pieces@).last() == pieces@[n - 1]@);
            if n < 2 || (n == 2 && text::same_text(pieces[0].as_str(), "")) {
                return None;
            }
            Some(pieces[n - 1].clone())
        },
        None => None,
    }
}

pub open spec fn entry_name(entry: Json) -> Seq<char> {
    match entry.text_at("name"@) {
        Some(name) => name,
        None => ""@,
    }
}

/// Whether a listing's entry is a JSON file.
pub open spec fn json_file(entry: Json) -> bool {
    &&& entry.text_at("type"@) == Some("file"@)
    &&& extension(entry_name(entry)) matches Some(ext) && text::alike(ext, "json"@)
}

pub open spec fn json_files(entries: Seq<Json>) -> Seq<Seq<char>>
    decreases entries.len(),
{
    if entries.len() == 0 {
        Seq::empty()
    } else {
        let rest = json_files(entries.drop_last());
        if json_file(entries.last()) {
            rest.push(entry_name(entries.last()))
        } else {
            rest
        }
    }
}

pub open spec fn listed(listing: Json) -> Result<Seq<Seq<char>>, Seq<char>> {
    match listing {
        Json::Array(entries) => Ok(json_files(entries)),
        _ => Err("contents listing was not an array"@),
    }
}

pub open spec fn names_or(r: Result<Vec<String>, Error>) -> Result<Seq<Seq<char>>, Seq<char>> {
    match r {
        Ok(names) => Ok(text::texts(names@)),
        Err(e) => Err(e@),
    }
}

/// The JSON files that a contents listing names, in order.
pub fn listed_files(listing: &Doc) -> (r: Result<Vec<String>, Error>)
    ensures
        names_or(r) == listed(listing@),
{
    broadcast use json::lemma_array_json;

    match listing {
        Doc::Array(entries) => {
            let mut names: Vec<String> = Vec::new();
            let ghost all = json::jsons(entries@);
            let mut i: usize = 0;
            assert(text::texts(names@) =~= json_files(all.take(0)));
            while i < entries.len()
                invariant
                    i <= entries@.len(),
                    all == json::jsons(entries@),
                    text::texts(names@) == json_files(all.take(i as int)),
                decreases entries@.len() - i,
            {
                let entry = &entries[i];
                proof {
                    assert(all.take(i + 1).drop_last() =~= all.take(i as int));
                    assert(all.take(i + 1).last() == entry@);
                }
                let name = match json::text_member(entry, "name") {
                    Some(name) => name,
                    None => "",
                };
                let is_file = match json::text_member(entry, "type") {
                    Some(kind) => text::same_text(kind, "file"),
                    None => false,
                };
                let is_json = match extension_of(name) {
                    Some(ext) => text::same_ignoring_case(ext.as_str(), "json"),
                    None => false,
                };
                if is_file && is_json {
                    let name = name.to_owned();
                    proof {
                        text::lemma_texts_push(names@, name);
                    }
                    names.push(name);
                }
                i += 1;
            }
            assert(all.take(all.len() as int) =~= all);
            Ok(names)
        },
        _ => Err(Error::new("contents listing was not an array")),
    }
}

/// The JSON files that the reply to a contents request names.
pub fn resolve_listing(body: &[u8]) -> (r: Result<Vec<String>, Error>)
    ensures
        names_or(r) == (match outside::json_parse(body@) {
            Ok(listing) => listed(listing),
            Err(e) => Err(e),
        }),
{
    match outside::parse_json(body) {
        Ok(listing) => listed_files(&listing),
        Err(e) => Err(Error { message: e }),
    }
}

/// A directory source, gathered file by file.
#[derive(Debug)]
pub struct Directory {
    pub content: Table<Doc>,
    pub files: Table<String>,
    pub bytes: u64,
}

impl Directory {
    pub fn new() -> (d: Directory)
        ensures
            d.content.members() == Seq::<(Seq<char>, Json)>::empty(),
            text_map(d.files@) == Seq::<(Seq<char>, Seq<char>)>::empty(),
            d.bytes == 0,
    {
        broadcast use json::lemma_members;

        let content: Table<Doc> = Table::new();
        assert(content.members() =~= Seq::<(Seq<char>, Json)>::empty());
        Directory { content, files: no_files(), bytes: 0 }
    }

    /// Adds one file. A file that is not JSON is an error, and leaves the
    /// directory as it was.
    pub fn add_file(&mut self, name: &str, raw: &[u8]) -> (r: Result<(), Error>)
        requires
            old(self).bytes + raw@.len() <= u64::MAX,
        ensures
            match canon::canonical_document(raw@) {
                Ok(v) => {
                    &&& r is Ok
                    &&& final(self).content.members() == table::put(
                        old(self).content.members(),
                        name@,
                        v,
                    )
                    &&& text_map(final(self).files@) == table::put(
                        text_map(old(self).files@),
                        name@,
                        canon::hex_of(outside::sha256(raw@)),
                    )
                    &&& final(self).bytes == old(self).bytes + raw@.len()
                },
                Err(e) => {
                    &&& r matches Err(error) && error@ == e
                    &&& *final(self) == *old(self)
                },
            },
    {
        match canon::canonicalize(raw) {
            Ok(value) => {
                let digest = canon::sha256_hex(raw);
                proof {
                    table::lemma_mapped_put(self.files@, name@, digest, |s: String| s@);
                }
                self.bytes = self.bytes + raw.len() as u64;
                self.files.insert(name.to_owned(), digest);
                self.content.set(name, value);
                Ok(())
            },
            Err(e) => Err(e),
        }
    }

    /// The snapshot of everything gathered: `{ "<filename>": <canonical json> }`.
    pub fn snapshot(self, source: &SourceSpec, commit: &str, committed_at: &str) -> (r: Result<
        Snapshot,
        Error,
    >)
        requires
            registration(source@.id) is Some,
        ensures
            capture_or(r) == directory_capture(
                source@,
                commit@,
                committed_at@,
                self.content.members(),
                text_map(self.files@),
                self.bytes,
            ),
    {
        proof {
            json::lemma_members(self.content);
        }
        if self.content.len() == 0 {
            let mut message = source.repo.to_owned();
            message.push_str(" exposed no .json files at ");
            message.push_str(commit);
            return Err(Error { message });
        }
        let content = Doc::Object(self.content);
        match canon::canonical_bytes(&content) {
            Ok(bytes) => {
                let provenance = Provenance {
                    repo: source.repo.to_owned(),
                    path: "*.json".to_owned(),
                    commit: commit.to_owned(),
                    committed_at: committed_at.to_owned(),
                    raw_sha256: canon::sha256_hex(bytes.as_slice()),
                    bytes: self.bytes,
                    files: self.files,
                };
                Snapshot::build(source.id, provenance, content)
            },
            Err(e) => Err(e),
        }
    }
}

pub open spec fn directory_capture(
    source: Registration,
    commit: Seq<char>,
    committed_at: Seq<char>,
    content: Seq<(Seq<char>, Json)>,
    files: Seq<(Seq<char>, Seq<char>)>,
    bytes: u64,
) -> Result<Capture, Seq<char>> {
    if content.len() == 0 {
        Err(source.repo + " exposed no .json files at "@ + commit)
    } else {
        match canon::canonical_text(Json::Object(content)) {
            Ok(canonical) => captured(
                source.id,
                Pin {
                    repo: source.repo,
                    path: "*.json"@,
                    commit,
                    committed_at,
                    raw_sha256: canon::hex_of(outside::sha256(canonical)),
                    bytes,
                    files,
                },
                Json::Object(content),
            ),
            Err(e) => Err(e),
        }
    }
}

// Offline replay.

pub open spec fn offline_pin(source: Registration, raw: Seq<u8>) -> Pin {
    let digest = canon::hex_of(outside::sha256(raw));
    Pin {
        repo: source.repo,
        path: source.path,
        commit: "offline-"@ + digest.take(12),
        committed_at: "1970-01-01T00:00:00Z"@,
        raw_sha256: digest,
        bytes: raw.len() as u64,
        files: Seq::empty(),
    }
}

/// The pin of a captured file: the one recorded beside it, or one made up from
/// its bytes.
pub open spec fn replay_pin(source: Registration, raw: Seq<u8>, recorded: Option<Seq<u8>>) -> Result<
    Pin,
    Seq<char>,
> {
    match recorded {
        Some(bytes) => match outside::json_parse(bytes) {
            Ok(v) => match pin_in(v) {
                Some(pin) => Ok(pin),
                None => Err("recorded provenance is incomplete"@),
            },
            Err(e) => Err(e),
        },
        None => Ok(offline_pin(source, raw)),
    }
}

fn offline_provenance(source: &SourceSpec, raw: &[u8]) -> (p: Provenance)
    ensures
        p@ == offline_pin(source@, raw@),
{
    let digest = canon::sha256_hex(raw);
    let mut commit = "offline-".to_owned();
    commit.push_str(digest.as_str().substring_char(0, 12));
    assert(commit@ == "offline-"@ + digest@.take(12));
    Provenance {
        repo: source.repo.to_owned(),
        path: source.path.to_owned(),
        commit,
        committed_at: "1970-01-01T00:00:00Z".to_owned(),
        raw_sha256: digest,
        bytes: raw.len() as u64,
        files: no_files(),
    }
}

pub open spec fn optional_bytes(b: Option<&[u8]>) -> Option<Seq<u8>> {
    match b {
        Some(b) => Some(b@),
        None => None,
    }
}

/// A captured source, from its file and the provenance recorded beside it. The
/// record is read as a whole document first: of a field that is given twice the
/// last value counts, and one nested deeper than `outside::NESTING` is refused.
pub fn replayed_snapshot(source: &SourceSpec, raw: &[u8], recorded: Option<&[u8]>) -> (r: Result<
    Snapshot,
    Error,
>)
    requires
        registration(source@.id) is Some,
    ensures
        capture_or(r) == (match replay_pin(source@, raw@, optional_bytes(recorded)) {
            Ok(pin) => match canon::canonical_document(raw@) {
                Ok(content) => captured(source@.id, pin, content),
                Err(e) => Err(e),
            },
            Err(e) => Err(e),
        }),
{
    let provenance = match recorded {
        Some(bytes) => match outside::parse_json(bytes) {
            Ok(v) => match read_recorded(&v) {
                Some(provenance) => provenance,
                None => {
                    return Err(Error::new("recorded provenance is incomplete"));
                },
            },
            Err(e) => {
                return Err(Error { message: e });
            },
        },
        None => offline_provenance(source, raw),
    };
    match canon::canonicalize(raw) {
        Ok(content) => Snapshot::build(source.id, provenance, content),
        Err(e) => Err(e),
    }
}

// What a capture says of what was fetched.

/// A capture keeps its id, its pin and its content as they are, with the digest
/// of the content and the digest of what is left of it without its volatile
/// members.
pub proof fn law_capture_keeps_what_was_fetched(id: Seq<char>, pin: Pin, content: Json)
    ensures
        captured(id, pin, content) matches Ok(c) ==> {
            &&& c.id == id
            &&& c.provenance == pin
            &&& c.content == content
            &&& canon::bytes_of_hex(c.content_sha256) == Ok::<Seq<u8>, Seq<char>>(
                outside::sha256(canon::canonical_text(content)->Ok_0),
            )
            &&& canon::bytes_of_hex(c.substance_sha256) == Ok::<Seq<u8>, Seq<char>>(
                outside::sha256(canon::canonical_text(substance_of(id, content))->Ok_0),
            )
        },
        captured(id, pin, content) is Ok <==> canon::canonical_text(content) is Ok
            && canon::canonical_text(substance_of(id, content)) is Ok,
{
    canon::law_digest_is_of_the_canonical_bytes(content);
    canon::law_digest_is_of_the_canonical_bytes(substance_of(id, content));
}

/// A captured file is pinned to its source's repository and path, to the commit
/// and its time, and to the bytes fetched; its content is their document.
pub proof fn law_file_is_pinned_to_its_commit(
    source: Registration,
    commit: Seq<char>,
    committed_at: Seq<char>,
    raw: Seq<u8>,
)
    ensures
        file_capture(source, commit, committed_at, raw) matches Ok(c) ==> {
            &&& c.id == source.id
            &&& c.provenance.repo == source.repo
            &&& c.provenance.path == source.path
            &&& c.provenance.commit == commit
            &&& c.provenance.committed_at == committed_at
            &&& canon::bytes_of_hex(c.provenance.raw_sha256) == Ok::<Seq<u8>, Seq<char>>(
                outside::sha256(raw),
            )
            &&& raw.len() <= u64::MAX ==> c.provenance.bytes == raw.len()
            &&& c.provenance.files.len() == 0
            &&& canon::canonical_document(raw) == Ok::<Json, Seq<char>>(c.content)
        },
{
    canon::law_hex_round_trips(outside::sha256(raw));
}

/// A captured directory is pinned to its repository, to the commit and its time,
/// to the canonical bytes of its files together and to each file's digest.
pub proof fn law_directory_is_pinned_to_its_commit(
    source: Registration,
    commit: Seq<char>,
    committed_at: Seq<char>,
    content: Seq<(Seq<char>, Json)>,
    files: Seq<(Seq<char>, Seq<char>)>,
    bytes: u64,
)
    ensures
        directory_capture(source, commit, committed_at, content, files, bytes) matches Ok(c) ==> {
            &&& content.len() > 0
            &&& c.id == source.id
            &&& c.provenance.repo == source.repo
            &&& c.provenance.path == "*.json"@
            &&& c.provenance.commit == commit
            &&& c.provenance.committed_at == committed_at
            &&& c.provenance.files == files
            &&& c.provenance.bytes == bytes
            &&& c.content == Json::Object(content)
            &&& canon::bytes_of_hex(c.provenance.raw_sha256) == Ok::<Seq<u8>, Seq<char>>(
                outside::sha256(canon::canonical_text(Json::Object(content))->Ok_0),
            )
        },
        content.len() == 0 ==> directory_capture(
            source,
            commit,
            committed_at,
            content,
            files,
            bytes,
        ) is Err,
{
    if let Ok(canonical) = canon::canonical_text(Json::Object(content)) {
        canon::law_hex_round_trips(outside::sha256(canonical));
    }
}

/// What is replayed without a record is pinned to its own bytes, under a commit
/// that says so; what was recorded is kept as recorded.
pub proof fn law_replay_is_pinned_to_its_bytes(
    source: Registration,
    raw: Seq<u8>,
    recorded: Seq<u8>,
)
    ensures
        replay_pin(source, raw, None) matches Ok(pin) && {
            &&& pin.repo == source.repo
            &&& pin.path == source.path
            &&& text::begins(pin.commit, "offline-"@)
            &&& pin.commit == "offline-"@ + pin.raw_sha256.take(12)
            &&& pin.committed_at == "1970-01-01T00:00:00Z"@
            &&& canon::bytes_of_hex(pin.raw_sha256) == Ok::<Seq<u8>, Seq<char>>(
                outside::sha256(raw),
            )
            &&& raw.len() <= u64::MAX ==> pin.bytes == raw.len()
            &&& pin.files.len() == 0
        },
        replay_pin(source, raw, Some(recorded)) matches Ok(pin) ==> (outside::json_parse(recorded)
            matches Ok(v) && pin_in(v) == Some(pin)),
        replay_pin(source, raw, Some(recorded)) is Ok <==> (outside::json_parse(recorded) matches Ok(
            v,
        ) && pin_in(v) is Some),
{
    let pin = offline_pin(source, raw);
    canon::law_hex_round_trips(outside::sha256(raw));
    text::lemma_begins_self("offline-"@);
    text::lemma_begins_more("offline-"@, pin.raw_sha256.take(12), "offline-"@);
}

/// A pin reads each part of it under its own name, and is not read where one of
/// them is missing.
pub proof fn law_pin_reads_each_part(v: Json)
    ensures
        pin_members(v) matches Some(p) ==> {
            &&& v.get("repo"@) == Some(Json::Text(p.repo))
            &&& v.get("path"@) == Some(Json::Text(p.path))
            &&& v.get("commit"@) == Some(Json::Text(p.commit))
            &&& v.get("committed_at"@) == Some(Json::Text(p.committed_at))
            &&& v.get("raw_sha256"@) == Some(Json::Text(p.raw_sha256))
            &&& v.get("files"@) is None ==> p.files.len() == 0
        },
        v.get("repo"@) is None || v.get("path"@) is None || v.get("commit"@) is None || v.get(
            "committed_at"@,
        ) is None || v.get("raw_sha256"@) is None || v.get("bytes"@) is None ==> pin_members(v)
            is None,
{
}

/// The commit that a listing gives is its first one, by its own hash and the date
/// that its committer gave it.
pub proof fn law_newest_commit_is_listed_first(
    commits: Seq<Json>,
    repo: Seq<char>,
    path: Seq<char>,
)
    ensures
        commit_in(Json::Array(commits), repo, path) matches Ok(found) ==> {
            &&& commits.len() > 0
            &&& commits[0].get("sha"@) == Some(Json::Text(found.0))
            &&& json::at(commits[0], seq!["commit"@, "committer"@, "date"@]) == Some(
                Json::Text(found.1),
            )
        },
        commits.len() > 0 && (commits[0].get("sha"@) matches Some(Json::Text(_))) && (json::at(
            commits[0],
            seq!["commit"@, "committer"@, "date"@],
        ) matches Some(Json::Text(_))) ==> commit_in(Json::Array(commits), repo, path) is Ok,
        commits.len() == 0 ==> commit_in(Json::Array(commits), repo, path) is Err,
{
}

/// The files taken from a directory are exactly its entries that are files with a
/// `json` extension, in any case and in the order listed.
pub proof fn law_json_files_are_taken(entries: Seq<Json>, name: Seq<char>)
    ensures
        json_files(entries).contains(name) <==> exists|i: int|
            0 <= i < entries.len() && (#[trigger] entries[i]).get("type"@) == Some(
                Json::Text("file"@),
            ) && entry_name(entries[i]) == name && (extension(name) matches Some(ext)
                && text::ascii_lower(ext) == "json"@),
    decreases entries.len(),
{
    reveal_strlit("json");
    assert(text::ascii_lower("json"@) =~= "json"@);
    if entries.len() > 0 {
        let front = entries.drop_last();
        let last = entries[entries.len() - 1];
        law_json_files_are_taken(front, name);
        let rest = json_files(front);
        let now = json_files(entries);
        if rest.contains(name) {
            let k = choose|k: int| 0 <= k < rest.len() && rest[k] == name;
            assert(now[k] == name);
            let i = choose|i: int|
                0 <= i < front.len() && (#[trigger] front[i]).get("type"@) == Some(
                    Json::Text("file"@),
                ) && entry_name(front[i]) == name && (extension(name) matches Some(ext)
                    && text::ascii_lower(ext) == "json"@);
            assert(entries[i] == front[i]);
        }
        if now.contains(name) {
            let k = choose|k: int| 0 <= k < now.len() && now[k] == name;
            if k < rest.len() {
                assert(rest[k] == name);
            } else {
                assert(entries[entries.len() - 1].get("type"@) == Some(Json::Text("file"@)));
            }
        }
        if exists|i: int|
            0 <= i < entries.len() && (#[trigger] entries[i]).get("type"@) == Some(
                Json::Text("file"@),
            ) && entry_name(entries[i]) == name && (extension(name) matches Some(ext)
                && text::ascii_lower(ext) == "json"@) {
            let i = choose|i: int|
                0 <= i < entries.len() && (#[trigger] entries[i]).get("type"@) == Some(
                    Json::Text("file"@),
                ) && entry_name(entries[i]) == name && (extension(name) matches Some(ext)
                    && text::ascii_lower(ext) == "json"@);
            if i < front.len() {
                assert(front[i] == entries[i]);
            } else {
                assert(now[now.len() - 1] == name);
            }
        }
    }
}

/// The extension of a file name is what stands behind its last dot, where
/// something stands before that dot.
pub proof fn law_extension_is_behind_the_last_dot(stem: Seq<char>, ext: Seq<char>)
    requires
        stem.len() > 0,
        !stem.contains('/'),
        !ext.contains('/'),
        !ext.contains('.'),
        !(stem.len() == 1 && stem[0] == '.'),
    ensures
        extension(stem + seq!['.'] + ext) == Some(ext),
{
    let name = stem + seq!['.'] + ext;
    reveal_strlit("");
    reveal_strlit(".");
    reveal_strlit("..");
    assert(!name.contains('/')) by {
        if name.contains('/') {
            let k = choose|k: int| 0 <= k < name.len() && name[k] == '/';
            if k < stem.len() {
                assert(stem[k] == '/');
            } else if k > stem.len() {
                assert(ext[k - stem.len() - 1] == '/');
            }
        }
    }
    text::lemma_split_one(name, '/');
    let parts = seq![name];
    assert(parts.drop_last() =~= Seq::<Seq<char>>::empty());
    assert(components(parts.drop_last()) =~= Seq::<Seq<char>>::empty());
    if name == "."@ {
        assert(name.len() == 1);
    }
    if name == ".."@ {
        assert(stem.len() == 1);
        assert(name[0] == stem[0]);
        assert(".."@[0] == '.');
    }
    assert(components(parts) =~= seq![name]);
    assert(name =~= stem.push('.') + ext);
    text::lemma_split_more(stem, ext, '.');
    text::lemma_split_pieces(stem, '.');
    let pieces = text::split(stem, '.');
    if pieces.len() == 1 {
        text::law_join_undoes_split(stem, '.');
        assert(pieces[0] == stem);
    }
}

/// What a registered source leaves out of its substance is what its publisher
/// rewrites without changing anything: these members are gone, and whatever else
/// a path names stays.
pub proof fn law_only_volatile_members_are_left_out(content: Json, other: Seq<Seq<char>>)
    requires
        outside::well_formed(content),
    ensures
        json::at(substance_of("rules"@, content), seq!["info"@, "last_updated"@]) is None,
        canon::diverge(seq!["info"@, "last_updated"@], other) ==> json::at(
            substance_of("rules"@, content),
            other,
        ) == json::at(content, other),
        substance_of("schemas"@, content) == content,
        json::at(substance_of("marketplace"@, content), seq!["meta"@]) is None,
        canon::diverge(seq!["meta"@], other) ==> json::at(
            substance_of("marketplace"@, content),
            other,
        ) == json::at(content, other),
        json::at(substance_of("oscal"@, content), seq!["catalog"@, "uuid"@]) is None,
        json::at(
            substance_of("oscal"@, content),
            seq!["catalog"@, "metadata"@, "last-modified"@],
        ) is None,
        json::at(
            substance_of("oscal"@, content),
            seq!["catalog"@, "metadata"@, "oscal-version"@],
        ) is None,
        canon::diverge(seq!["catalog"@, "uuid"@], other) && canon::diverge(
            seq!["catalog"@, "metadata"@, "last-modified"@],
            other,
        ) && canon::diverge(seq!["catalog"@, "metadata"@, "oscal-version"@], other) ==> json::at(
            substance_of("oscal"@, content),
            other,
        ) == json::at(content, other),
{
    lemma_source_names();
    let rules = rules_source().volatile;
    let market = marketplace_source().volatile;
    let oscal = oscal_source().volatile;
    assert(rules[0] == seq!["info"@, "last_updated"@]);
    assert(market[0] == seq!["meta"@]);
    assert(oscal[0] == seq!["catalog"@, "uuid"@]);
    assert(oscal[1] == seq!["catalog"@, "metadata"@, "last-modified"@]);
    assert(oscal[2] == seq!["catalog"@, "metadata"@, "oscal-version"@]);
    lemma_oscal_paths();
    canon::law_stripping_drops_only_its_paths(content, rules, other);
    canon::law_stripping_drops_only_its_paths(content, market, other);
    canon::law_stripping_drops_only_its_paths(content, oscal, other);
    if canon::diverge(rules[0], other) {
        assert forall|i: int| 0 <= i < rules.len() implies canon::diverge(
            #[trigger] rules[i],
            other,
        ) by {}
    }
    if canon::diverge(market[0], other) {
        assert forall|i: int| 0 <= i < market.len() implies canon::diverge(
            #[trigger] market[i],
            other,
        ) by {}
    }
    if canon::diverge(oscal[0], other) && canon::diverge(oscal[1], other) && canon::diverge(
        oscal[2],
        other,
    ) {
        assert forall|i: int| 0 <= i < oscal.len() implies canon::diverge(
            #[trigger] oscal[i],
            other,
        ) by {}
    }
}

proof fn lemma_source_names()
    ensures
        "rules"@.len() == 5,
        "schemas"@.len() == 7,
        "marketplace"@.len() == 11,
        "oscal"@.len() == 5,
        "rules"@ != "oscal"@,
{
    reveal_strlit("rules");
    reveal_strlit("schemas");
    reveal_strlit("marketplace");
    reveal_strlit("oscal");
    assert("rules"@[0] == 'r');
    assert("oscal"@[0] == 'o');
}

proof fn lemma_oscal_paths()
    ensures
        canon::all_diverge(oscal_source().volatile),
{
    reveal_strlit("uuid");
    reveal_strlit("metadata");
    reveal_strlit("last-modified");
    reveal_strlit("oscal-version");
    assert("uuid"@.len() == 4);
    assert("metadata"@.len() == 8);
    assert("last-modified"@[0] == 'l');
    assert("oscal-version"@[0] == 'o');
    let a = seq!["catalog"@, "uuid"@];
    let b = seq!["catalog"@, "metadata"@, "last-modified"@];
    let c = seq!["catalog"@, "metadata"@, "oscal-version"@];
    assert(a.drop_first()[0] == "uuid"@);
    assert(b.drop_first()[0] == "metadata"@);
    assert(c.drop_first()[0] == "metadata"@);
    assert(b.drop_first().drop_first()[0] == "last-modified"@);
    assert(c.drop_first().drop_first()[0] == "oscal-version"@);
    assert(canon::diverge(a.drop_first(), b.drop_first()));
    assert(canon::diverge(a.drop_first(), c.drop_first()));
    assert(canon::diverge(b.drop_first().drop_first(), c.drop_first().drop_first()));
    assert(canon::diverge(b.drop_first(), c.drop_first()));
    assert(canon::diverge(a, b));
    assert(canon::diverge(a, c));
    assert(canon::diverge(b, c));
    let all = oscal_source().volatile;
    assert(all[0] == a && all[1] == b && all[2] == c);
    assert forall|i: int, j: int| 0 <= i < j < all.len() implies canon::diverge(
        #[trigger] all[i],
        #[trigger] all[j],
    ) by {}
}

/// Each registered source is found under its own id, in its own repository, and
/// every id that is found is one of them.
pub proof fn law_sources_are_registered_by_id(id: Seq<char>, i: int)
    ensures
        0 <= i < registered().len() ==> registration(registered()[i].id) == Some(registered()[i]),
        registration(id) matches Some(r) ==> r.id == id && registered().contains(r),
        registration("rules"@) matches Some(r) && r.repo == "FedRAMP/rules"@ && !r.is_dir,
        registration("schemas"@) matches Some(r) && r.repo == "FedRAMP/schemas"@ && r.is_dir,
        registration("marketplace"@) matches Some(r) && r.repo
            == "FedRAMP/marketplace-fedramp-gov-data"@ && !r.is_dir,
        registration("oscal"@) matches Some(r) && r.repo == "usnistgov/oscal-content"@ && !r.is_dir,
{
    lemma_source_names();
    let all = registered();
    assert(all[0] == rules_source());
    assert(all[1] == schemas_source());
    assert(all[2] == oscal_source());
    assert(all[3] == marketplace_source());
}

} // verus!
