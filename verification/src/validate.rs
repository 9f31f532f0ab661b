//! Package validation against the signed schemas.
//!
//! FedRAMP's published schemas cannot be validated as they stand: their
//! cross-schema `$ref`s are written as paths rather than URI fragments —
//! `…common-definitions-….json/$defs/nRating` — and that URL 404s. A validator
//! that resolves over the network therefore fails at reference resolution
//! before checking a single constraint.
//!
//! Resolution here is **offline and signed**: every schema comes from the chain
//! payload, the path form is repaired to the subschema it plainly means, and
//! each repair is recorded so the receipt never claims we validated against
//! exactly what was published. A URI outside the signed set is an error, never
//! a fetch — a verdict whose meaning depends on what a server returned today
//! cannot be a durable receipt.

use vstd::multiset::Multiset;
use vstd::prelude::*;

use crate::bundle::Bundle;
use crate::canon;
use crate::diff;
use crate::diff::rules;
use crate::error::Error;
use crate::json;
use crate::json::{Doc, Json};
use crate::outside;
use crate::outside::Attempt;
use crate::report;
use crate::sources;
use crate::table;
use crate::table::Table;
use crate::text;

verus! {

/// The prefix every published FedRAMP schema `$id` shares.
pub const SCHEMA_BASE: &'static str = "https://fedramp.gov/schemas/";

/// What is said of a relative reference where nothing gives it a base.
pub const NO_BASE: &'static str = "No base URI is available";

pub const DEFS_MARKER: &'static str = "/$defs/";

/// The schemas as signed, keyed by filename.
#[derive(Debug)]
pub struct SchemaSet {
    pub(crate) schemas: Table<Doc>,
}

impl View for SchemaSet {
    type V = Seq<(Seq<char>, Json)>;

    closed spec fn view(&self) -> Seq<(Seq<char>, Json)> {
        self.schemas.members()
    }
}

pub open spec fn set_or(r: Result<SchemaSet, Error>) -> Result<
    Seq<(Seq<char>, Json)>,
    Seq<char>,
> {
    match r {
        Ok(s) => Ok(s@),
        Err(e) => Err(e@),
    }
}

/// The schema files that a payload carries.
pub open spec fn signed_schemas(content: Seq<(Seq<char>, Json)>) -> Result<
    Seq<(Seq<char>, Json)>,
    Seq<char>,
> {
    match table::lookup(content, sources::SCHEMAS@) {
        Some(Json::Object(m)) => Ok(m),
        Some(_) => Err("schemas section is not an object"@),
        None => Err("chain payload has no schemas section"@),
    }
}

/// The name that a package's `$schema` ends in, where the set has it.
pub open spec fn declared_name(set: Seq<(Seq<char>, Json)>, package: Json) -> Option<Seq<char>> {
    match package.text_at("$schema"@) {
        Some(uri) => {
            let name = text::after_last(uri, '/');
            if table::lookup(set, name) is Some {
                Some(name)
            } else {
                None
            }
        },
        None => None,
    }
}

/// The schema to hold a package against: the one asked for, or the one that the
/// package declares.
pub open spec fn chosen_name(
    set: Seq<(Seq<char>, Json)>,
    requested: Option<Seq<char>>,
    package: Json,
) -> Result<Seq<char>, Seq<char>> {
    match requested {
        Some(name) => if table::lookup(set, name) is Some {
            Ok(name)
        } else {
            Err(
                "no signed schema named `"@ + name + "`. Available: "@ + text::join(
                    table::keys(set),
                    ", "@,
                ),
            )
        },
        None => match declared_name(set, package) {
            Some(name) => Ok(name),
            None => Err(
                "package does not declare a recognised `$schema`; pass --schema with one of the signed schema names"@,
            ),
        },
    }
}

pub open spec fn opt_str(s: Option<&str>) -> Option<Seq<char>> {
    match s {
        Some(s) => Some(s@),
        None => None,
    }
}

impl SchemaSet {
    pub fn from_bundle(bundle: &Bundle) -> (r: Result<SchemaSet, Error>)
        ensures
            set_or(r) == signed_schemas(bundle@.content),
    {
        match bundle.section(sources::SCHEMAS) {
            Some(Doc::Object(m)) => Ok(SchemaSet { schemas: m.duplicate() }),
            Some(_) => Err(Error::new("schemas section is not an object")),
            None => Err(Error::new("chain payload has no schemas section")),
        }
    }

    pub fn names(&self) -> (list: Vec<String>)
        ensures
            text::texts(list@) == table::keys(self@),
    {
        broadcast use json::lemma_members;

        let mut list: Vec<String> = Vec::new();
        let mut i: usize = 0;
        while i < self.schemas.len()
            invariant
                i <= self.schemas@.len(),
                list@.len() == i,
                forall|j: int| 0 <= j < i ==> (#[trigger] list@[j])@ == self.schemas@[j].0,
            decreases self.schemas@.len() - i,
        {
            list.push(self.schemas.key(i).to_owned());
            i += 1;
        }
        assert(text::texts(list@) =~= table::keys(self.schemas.members()));
        list
    }

    pub fn get(&self, name: &str) -> (found: Option<&Doc>)
        ensures
            json::opt_json(found) == table::lookup(self@, name@),
    {
        self.schemas.member(name)
    }

    /// A package declares its schema with `$schema`, or names it directly.
    pub fn resolve_name(&self, requested: Option<&str>, package: &Doc) -> (r: Result<String, Error>)
        ensures
            canon::text_or(r) == chosen_name(self@, opt_str(requested), package@),
    {
        match requested {
            Some(name) => {
                if self.get(name).is_some() {
                    return Ok(name.to_owned());
                }
                let mut message = "no signed schema named `".to_owned();
                message.push_str(name);
                message.push_str("`. Available: ");
                message.push_str(text::join_texts(&self.names(), ", ").as_str());
                Err(Error { message })
            },
            None => {
                match json::text_member(package, "$schema") {
                    Some(uri) => {
                        let name = text::tail_after(uri, '/');
                        if self.get(name.as_str()).is_some() {
                            return Ok(name);
                        }
                    },
                    None => {},
                }
                Err(
                    Error::new(
                        "package does not declare a recognised `$schema`; pass --schema with one of the signed schema names",
                    ),
                )
            },
        }
    }
}

// Resolving references.

/// A resolved reference: the schema it names, and the repair it took.
pub struct Resolution {
    pub schema: Json,
    pub repair: Option<Seq<char>>,
}

pub open spec fn repair_note(file: Seq<char>, pointer: Seq<char>) -> Seq<char> {
    file + DEFS_MARKER@ + pointer + " → "@ + file + "#/$defs/"@ + pointer
}

/// A definition published under a URI of its own.
pub open spec fn with_id(v: Json, uri: Seq<char>) -> Json {
    match v {
        Json::Object(_) => v.with("$id"@, Json::Text(uri)),
        other => other,
    }
}

/// What a reference resolves to within the signed set. The published path form
/// names a resource that does not exist; it is taken for the fragment it
/// evidently means.
pub open spec fn resolution(set: Seq<(Seq<char>, Json)>, uri: Seq<char>) -> Result<
    Resolution,
    Seq<char>,
> {
    if !text::begins(uri, SCHEMA_BASE@) {
        Err("refusing to resolve `"@ + uri + "`: outside the signed schema set"@)
    } else {
        let rest = uri.skip(SCHEMA_BASE@.len() as int);
        match text::split_at_marker(rest, DEFS_MARKER@) {
            None => match table::lookup(set, rest) {
                Some(schema) => Ok(Resolution { schema, repair: None }),
                None => Err("`"@ + rest + "` is not in the signed schema set"@),
            },
            Some((file, pointer)) => match table::lookup(set, file) {
                Some(schema) => match schema.get2("$defs"@, pointer) {
                    Some(target) => Ok(
                        Resolution {
                            schema: with_id(target, uri),
                            repair: Some(repair_note(file, pointer)),
                        },
                    ),
                    None => Err("`"@ + file + "` has no $defs/"@ + pointer),
                },
                None => Err("`"@ + file + "` is not in the signed schema set"@),
            },
        }
    }
}

/// The repairs with one more, unless it is already among them.
pub open spec fn noted(repairs: Seq<Seq<char>>, note: Option<Seq<char>>) -> Seq<Seq<char>> {
    match note {
        Some(note) => if repairs.contains(note) {
            repairs
        } else {
            repairs.push(note)
        },
        None => repairs,
    }
}

fn record_repair(file: &str, pointer: &str, repairs: &mut Vec<String>)
    ensures
        text::texts(final(repairs)@) == noted(
            text::texts(old(repairs)@),
            Some(repair_note(file@, pointer@)),
        ),
{
    let mut note = file.to_owned();
    note.push_str(DEFS_MARKER);
    note.push_str(pointer);
    note.push_str(" → ");
    note.push_str(file);
    note.push_str("#/$defs/");
    note.push_str(pointer);
    if !text::is_among(note.as_str(), repairs) {
        proof {
            text::lemma_texts_push(repairs@, note);
        }
        repairs.push(note);
    }
}

/// Resolves a reference from the signed set only, repairing the published path
/// form and recording the repair.
pub fn retrieve(set: &SchemaSet, uri: &str, repairs: &mut Vec<String>) -> (r: Result<Doc, Error>)
    ensures
        match resolution(set@, uri@) {
            Ok(found) => {
                &&& r matches Ok(schema) && schema@ == found.schema
                &&& text::texts(final(repairs)@) == noted(
                    text::texts(old(repairs)@),
                    found.repair,
                )
            },
            Err(e) => {
                &&& r matches Err(error) && error@ == e
                &&& final(repairs)@ == old(repairs)@
            },
        },
{
    let rest = match text::strip_prefix(uri, SCHEMA_BASE) {
        Some(rest) => rest,
        None => {
            return Err(
                Error::about("refusing to resolve `", uri, "`: outside the signed schema set"),
            );
        },
    };
    match text::split_once(rest.as_str(), DEFS_MARKER) {
        None => match set.get(rest.as_str()) {
            Some(schema) => Ok(schema.duplicate()),
            None => Err(Error::about("`", rest.as_str(), "` is not in the signed schema set")),
        },
        Some((file, pointer)) => match set.get(file.as_str()) {
            Some(schema) => {
                let target = match schema.get("$defs") {
                    Some(defs) => defs.get(pointer.as_str()),
                    None => None,
                };
                match target {
                    Some(target) => {
                        record_repair(file.as_str(), pointer.as_str(), repairs);
                        match target {
                            Doc::Object(m) => {
                                let mut copy = m.duplicate();
                                copy.set("$id", json::text_value(uri));
                                Ok(Doc::Object(copy))
                            },
                            other => Ok(other.duplicate()),
                        }
                    },
                    None => {
                        let mut message = "`".to_owned();
                        message.push_str(file.as_str());
                        message.push_str("` has no $defs/");
                        message.push_str(pointer.as_str());
                        Err(Error { message })
                    },
                }
            },
            None => Err(Error::about("`", file.as_str(), "` is not in the signed schema set")),
        },
    }
}

// Findings.

#[derive(Debug, Clone, PartialEq, Eq)]
pub struct Finding {
    /// JSON pointer into the package.
    pub pointer: String,
    pub message: String,
}

/// What a finding says.
pub struct Fault {
    pub pointer: Seq<char>,
    pub message: Seq<char>,
}

impl View for Finding {
    type V = Fault;

    open spec fn view(&self) -> Fault {
        Fault { pointer: self.pointer@, message: self.message@ }
    }
}

pub open spec fn faults(findings: Seq<Finding>) -> Seq<Fault> {
    findings.map_values(|f: Finding| f@)
}

/// By pointer, then by message.
pub open spec fn fault_lt(a: Fault, b: Fault) -> bool {
    text::text_lt(a.pointer, b.pointer) || (a.pointer == b.pointer && text::text_lt(
        a.message,
        b.message,
    ))
}

/// The list with `f` behind every fault that is not larger.
pub open spec fn placed(list: Seq<Fault>, f: Fault) -> Seq<Fault>
    decreases list.len(),
{
    if list.len() == 0 || !fault_lt(f, list.last()) {
        list.push(f)
    } else {
        placed(list.drop_last(), f).push(list.last())
    }
}

/// A violation as a fault: the pointer to the whole package is written `/`.
pub open spec fn fault_of(violation: (Seq<char>, Seq<char>)) -> Fault {
    Fault {
        pointer: if violation.0 == ""@ {
            "/"@
        } else {
            violation.0
        },
        message: violation.1,
    }
}

/// The faults of some violations, in order.
pub open spec fn sorted_faults(violations: Seq<(Seq<char>, Seq<char>)>) -> Seq<Fault>
    decreases violations.len(),
{
    if violations.len() == 0 {
        Seq::empty()
    } else {
        placed(sorted_faults(violations.drop_last()), fault_of(violations.last()))
    }
}

proof fn lemma_placed_at(list: Seq<Fault>, f: Fault, i: int)
    requires
        0 <= i <= list.len(),
        i > 0 ==> !fault_lt(f, list[i - 1]),
        forall|j: int| i <= j < list.len() ==> fault_lt(f, #[trigger] list[j]),
    ensures
        placed(list, f) == list.insert(i, f),
    decreases list.len(),
{
    if i < list.len() {
        assert(fault_lt(f, list.last()));
        lemma_placed_at(list.drop_last(), f, i);
        assert(list.drop_last().insert(i, f).push(list.last()) =~= list.insert(i, f));
    } else {
        assert(list.push(f) =~= list.insert(i, f));
    }
}

fn stands_before(a: &Finding, b: &Finding) -> (yes: bool)
    ensures
        yes == fault_lt(a@, b@),
{
    text::text_before(a.pointer.as_str(), b.pointer.as_str()) || (text::same_text(
        a.pointer.as_str(),
        b.pointer.as_str(),
    ) && text::text_before(a.message.as_str(), b.message.as_str()))
}

fn place(list: &mut Vec<Finding>, finding: Finding)
    ensures
        faults(final(list)@) == placed(faults(old(list)@), finding@),
{
    let ghost before = faults(list@);
    let mut i: usize = list.len();
    while i > 0 && stands_before(&finding, &list[i - 1])
        invariant
            i <= list@.len(),
            before == faults(list@),
            forall|j: int| i <= j < before.len() ==> fault_lt(finding@, #[trigger] before[j]),
        decreases i,
    {
        i -= 1;
    }
    proof {
        lemma_placed_at(before, finding@, i as int);
        assert(faults(list@.insert(i as int, finding)) =~= before.insert(i as int, finding@));
    }
    list.insert(i, finding);
}

fn sort_findings(violations: &Vec<(String, String)>) -> (findings: Vec<Finding>)
    ensures
        faults(findings@) == sorted_faults(outside::text_pairs(violations@)),
{
    let mut findings: Vec<Finding> = Vec::new();
    let ghost all = outside::text_pairs(violations@);
    let mut i: usize = 0;
    assert(faults(findings@) =~= sorted_faults(all.take(0)));
    while i < violations.len()
        invariant
            i <= violations@.len(),
            all == outside::text_pairs(violations@),
            faults(findings@) == sorted_faults(all.take(i as int)),
        decreases violations@.len() - i,
    {
        let v = &violations[i];
        proof {
            assert(all.take(i + 1).drop_last() =~= all.take(i as int));
            assert(all.take(i + 1).last() == (v.0@, v.1@));
        }
        let pointer = if text::same_text(v.0.as_str(), "") {
            "/".to_owned()
        } else {
            v.0.clone()
        };
        place(&mut findings, Finding { pointer, message: v.1.clone() });
        i += 1;
    }
    assert(all.take(all.len() as int) =~= all);
    findings
}

// Binding schemas to rules.

/// Whether a rule requires the artifact of a schema.
pub open spec fn binds(leaf: Json, schema_name: Seq<char>) -> bool {
    match json::at(leaf, seq!["schema"@, "url"@]) {
        Some(Json::Text(url)) => text::after_last(url, '/') == schema_name,
        _ => false,
    }
}

pub open spec fn binding_ids(
    leaves: Seq<(Seq<char>, Json)>,
    schema_name: Seq<char>,
) -> Seq<Seq<char>>
    decreases leaves.len(),
{
    if leaves.len() == 0 {
        Seq::empty()
    } else {
        let rest = binding_ids(leaves.drop_last(), schema_name);
        if binds(leaves.last().1, schema_name) {
            rest.push(text::after_last(leaves.last().0, '/'))
        } else {
            rest
        }
    }
}

/// The ids of the rules that require an artifact.
pub open spec fn required_by(rules: Json, schema_name: Seq<char>) -> Seq<Seq<char>> {
    diff::sorted_names(binding_ids(rules::flattened(rules).0, schema_name))
}

fn leaf_binds(leaf: &Doc, schema_name: &str) -> (yes: bool)
    ensures
        yes == binds(leaf@, schema_name@),
{
    let path = ["schema", "url"];
    assert(json::strs(path@) =~= seq!["schema"@, "url"@]);
    match json::value_at(leaf, &path) {
        Some(Doc::Text(url)) => text::same_text(
            text::tail_after(url.as_str(), '/').as_str(),
            schema_name,
        ),
        _ => false,
    }
}

/// Which rules require this artifact. The rules bind schemas by URL, so the
/// filename is the join key — that is what makes a validation verdict a
/// compliance statement rather than a syntax check.
pub fn binding_rules(rules: &Doc, schema_name: &str) -> (ids: Vec<String>)
    ensures
        text::texts(ids@) == required_by(rules@, schema_name@),
{
    broadcast use json::lemma_members;

    let (leaves, _drift) = rules::flatten(rules);
    let mut found: Vec<String> = Vec::new();
    let ghost all = leaves.members();
    let mut i: usize = 0;
    assert(text::texts(found@) =~= binding_ids(all.take(0), schema_name@));
    while i < leaves.len()
        invariant
            i <= leaves@.len(),
            all == leaves.members(),
            all == json::deep(leaves@),
            text::texts(found@) == binding_ids(all.take(i as int), schema_name@),
        decreases leaves@.len() - i,
    {
        proof {
            assert(all.take(i + 1).drop_last() =~= all.take(i as int));
            assert(all.take(i + 1).last() == (leaves@[i as int].0, leaves@[i as int].1@));
        }
        if leaf_binds(leaves.value(i), schema_name) {
            let id = text::tail_after(leaves.key(i), '/');
            proof {
                text::lemma_texts_push(found@, id);
            }
            found.push(id);
        }
        i += 1;
    }
    assert(all.take(all.len() as int) =~= all);
    diff::key_list(&diff::name_table(&found))
}

// The report.

#[derive(Debug, Clone)]
pub struct Report {
    pub package: String,
    pub package_sha256: String,
    pub bytes: u64,
    pub schema: String,
    pub schema_sha256: String,
    pub valid: bool,
    pub findings: Vec<Finding>,
    /// Deviations from the published bytes that were required to resolve.
    pub repairs: Vec<String>,
    /// Rule ids that require this artifact, from the same signed ruleset.
    pub required_by: Vec<String>,
}

/// What a report says.
pub struct Assessment {
    pub package: Seq<char>,
    pub package_sha256: Seq<char>,
    pub bytes: u64,
    pub schema: Seq<char>,
    pub schema_sha256: Seq<char>,
    pub valid: bool,
    pub findings: Seq<Fault>,
    pub repairs: Seq<Seq<char>>,
    pub required_by: Seq<Seq<char>>,
}

impl View for Report {
    type V = Assessment;

    open spec fn view(&self) -> Assessment {
        Assessment {
            package: self.package@,
            package_sha256: self.package_sha256@,
            bytes: self.bytes,
            schema: self.schema@,
            schema_sha256: self.schema_sha256@,
            valid: self.valid,
            findings: faults(self.findings@),
            repairs: text::texts(self.repairs@),
            required_by: text::texts(self.required_by@),
        }
    }
}

pub open spec fn assessment_or(r: Result<Report, Error>) -> Result<Assessment, Seq<char>> {
    match r {
        Ok(r) => Ok(r@),
        Err(e) => Err(e@),
    }
}

/// Violations in some order.
pub open spec fn listed(violations: Multiset<(Seq<char>, Seq<char>)>) -> Seq<
    (Seq<char>, Seq<char>),
> {
    choose|list: Seq<(Seq<char>, Seq<char>)>| list.to_multiset() == violations
}

/// The report on a package that violates a schema as given.
pub open spec fn assessed(
    schema: Json,
    rules: Option<Json>,
    schema_name: Seq<char>,
    package: Seq<u8>,
    label: Seq<char>,
    violations: Multiset<(Seq<char>, Seq<char>)>,
    repairs: Seq<Seq<char>>,
) -> Result<Assessment, Seq<char>> {
    match canon::document_digest(schema) {
        Ok(schema_sha256) => Ok(
            Assessment {
                package: label,
                package_sha256: canon::hex_of(outside::sha256(package)),
                bytes: package.len() as u64,
                schema: schema_name,
                schema_sha256,
                valid: violations.len() == 0,
                findings: sorted_faults(listed(violations)),
                repairs,
                required_by: match rules {
                    Some(rules) => required_by(rules, schema_name),
                    None => Seq::empty(),
                },
            },
        ),
        Err(e) => Err(e),
    }
}

/// The report on a package that violates a schema as given.
pub fn assess(
    schema: &Doc,
    rules: Option<&Doc>,
    schema_name: &str,
    package_bytes: &[u8],
    package_label: &str,
    violations: &Vec<(String, String)>,
    repairs: Vec<String>,
) -> (r: Result<Report, Error>)
    ensures
        assessment_or(r) == assessed(
            schema@,
            json::opt_json(rules),
            schema_name@,
            package_bytes@,
            package_label@,
            outside::text_pairs(violations@).to_multiset(),
            text::texts(repairs@),
        ),
        r matches Ok(report) ==> faults(report.findings@) == sorted_faults(
            outside::text_pairs(violations@),
        ),
        r matches Ok(report) ==> {
            &&& report.package@ == package_label@
            &&& report.package_sha256@ == canon::hex_of(outside::sha256(package_bytes@))
            &&& report.bytes == package_bytes@.len()
            &&& report.schema@ == schema_name@
            &&& canon::document_digest(schema@) == Ok::<Seq<char>, Seq<char>>(report.schema_sha256@)
            &&& report.valid <==> violations@.len() == 0
            &&& report.findings@.len() == violations@.len()
            &&& text::texts(report.repairs@) == text::texts(repairs@)
            &&& rules is None ==> report.required_by@.len() == 0
            &&& rules matches Some(rules) ==> text::texts(report.required_by@) == required_by(
                rules@,
                schema_name@,
            )
        },
{
    proof {
        let given = outside::text_pairs(violations@);
        let m = given.to_multiset();
        assert(listed(m).to_multiset() == m);
        given.to_multiset_ensures();
        law_findings_are_stable(given, listed(m));
    }
    match canon::digest_value(schema) {
        Ok(schema_sha256) => {
            let required: Vec<String> = match rules {
                Some(rules) => binding_rules(rules, schema_name),
                None => Vec::new(),
            };
            assert(rules is None ==> text::texts(required@) =~= Seq::<Seq<char>>::empty());
            proof {
                law_findings_are_sorted(outside::text_pairs(violations@));
            }
            Ok(
                Report {
                    package: package_label.to_owned(),
                    package_sha256: canon::sha256_hex(package_bytes),
                    bytes: package_bytes.len() as u64,
                    schema: schema_name.to_owned(),
                    schema_sha256,
                    valid: violations.len() == 0,
                    findings: sort_findings(violations),
                    repairs,
                    required_by: required,
                },
            )
        },
        Err(e) => Err(e),
    }
}

/// Every resource is what its URI resolves to within the signed set.
pub open spec fn all_signed(set: Seq<(Seq<char>, Json)>, known: Seq<(Seq<char>, Json)>) -> bool {
    forall|i: int| 0 <= i < known.len() ==> signed_resource(set, #[trigger] known[i])
}

pub open spec fn signed_resource(
    set: Seq<(Seq<char>, Json)>,
    resource: (Seq<char>, Json),
) -> bool {
    match resolution(set, resource.0) {
        Ok(found) => found.schema == resource.1,
        Err(_) => false,
    }
}

/// The repairs that resolving some resources took.
pub open spec fn repairs_for(
    set: Seq<(Seq<char>, Json)>,
    known: Seq<(Seq<char>, Json)>,
) -> Seq<Seq<char>>
    decreases known.len(),
{
    if known.len() == 0 {
        Seq::empty()
    } else {
        noted(
            repairs_for(set, known.drop_last()),
            match resolution(set, known.last().0) {
                Ok(found) => found.repair,
                Err(_) => None,
            },
        )
    }
}

pub open spec fn not_compiled(schema_name: Seq<char>, reason: Seq<char>) -> Seq<char> {
    "schema `"@ + schema_name + "` could not be compiled: "@ + reason
}

fn refuse_schema(schema_name: &str, reason: &str) -> (e: Error)
    ensures
        e@ == not_compiled(schema_name@, reason@),
{
    let mut message = "schema `".to_owned();
    message.push_str(schema_name);
    message.push_str("` could not be compiled: ");
    message.push_str(reason);
    Error { message }
}

/// The document that a document's `$schema` names, without the fragment.
pub open spec fn metaschema(v: Json) -> Option<Seq<char>> {
    match v.text_at("$schema"@) {
        Some(named) => Some(text::split(named, '#')[0]),
        None => None,
    }
}

fn metaschema_of(v: &Doc) -> (uri: Option<String>)
    ensures
        text::opt_text(uri) == metaschema(v@),
{
    match json::text_member(v, "$schema") {
        Some(named) => {
            let pieces = text::split_text(named, '#');
            assert(text::texts(pieces@)[0] == pieces@[0]@);
            Some(pieces[0].clone())
        },
        None => None,
    }
}

/// Whether a resource stands under the URI.
pub open spec fn at_hand(known: Seq<(Seq<char>, Json)>, uri: Seq<char>) -> bool {
    exists|i: int| 0 <= i < known.len() && (#[trigger] known[i]).0 == uri
}

fn has_resource(known: &Vec<(String, Doc)>, uri: &str) -> (yes: bool)
    ensures
        yes == at_hand(outside::resources(known@), uri@),
{
    let ghost all = outside::resources(known@);
    let mut i: usize = 0;
    while i < known.len()
        invariant
            i <= known@.len(),
            all == outside::resources(known@),
            forall|j: int| 0 <= j < i ==> (#[trigger] all[j]).0 != uri@,
        decreases known@.len() - i,
    {
        assert(all[i as int] == (known@[i as int].0@, known@[i as int].1@));
        if text::same_text(known[i].0.as_str(), uri) {
            return true;
        }
        i += 1;
    }
    false
}

fn is_plain_uri(uri: &str) -> (yes: bool)
    ensures
        yes == outside::plain_uri(uri@),
{
    if !text::starts_with(uri, SCHEMA_BASE) || text::text_contains(uri, "/.") {
        return false;
    }
    let chars = text::chars_of(uri);
    let mut i: usize = 0;
    while i < chars.len()
        invariant
            i <= chars@.len(),
            chars@ == uri@,
            forall|j: int| 0 <= j < i ==> outside::plain_in_uri(#[trigger] chars@[j]),
        decreases chars@.len() - i,
    {
        let c = chars[i];
        if !(('a' <= c && c <= 'z') || ('A' <= c && c <= 'Z') || ('0' <= c && c <= '9') || c == '-'
            || c == '_' || c == '.' || c == '$' || c == '/' || c == ':') {
            assert(!outside::plain_in_uri(uri@[i as int]));
            return false;
        }
        i += 1;
    }
    true
}

/// A signed meta-schema that a document names and that is not at hand.
pub open spec fn lacking(
    set: Seq<(Seq<char>, Json)>,
    known: Seq<(Seq<char>, Json)>,
    v: Json,
) -> Option<Seq<char>> {
    match metaschema(v) {
        Some(uri) => if outside::plain_uri(uri) && suppliable(set, known, uri) {
            Some(uri)
        } else {
            None
        },
        None => None,
    }
}

/// The first signed meta-schema that the schema or one of the first `n`
/// resources names and that is not at hand.
pub open spec fn outstanding(
    set: Seq<(Seq<char>, Json)>,
    schema: Json,
    known: Seq<(Seq<char>, Json)>,
    n: nat,
) -> Option<Seq<char>>
    decreases n,
{
    if n == 0 {
        lacking(set, known, schema)
    } else {
        match outstanding(set, schema, known, (n - 1) as nat) {
            Some(uri) => Some(uri),
            None => lacking(set, known, known[n - 1].1),
        }
    }
}

fn find_lacking(set: &SchemaSet, known: &Vec<(String, Doc)>, v: &Doc) -> (uri: Option<String>)
    ensures
        text::opt_text(uri) == lacking(set@, outside::resources(known@), v@),
{
    match metaschema_of(v) {
        Some(uri) => {
            if !is_plain_uri(uri.as_str()) {
                return None;
            }
            let mut ignored: Vec<String> = Vec::new();
            match retrieve(set, uri.as_str(), &mut ignored) {
                Ok(_) => if has_resource(known, uri.as_str()) {
                    None
                } else {
                    Some(uri)
                },
                Err(_) => None,
            }
        },
        None => None,
    }
}

fn find_outstanding(set: &SchemaSet, schema: &Doc, known: &Vec<(String, Doc)>) -> (uri: Option<
    String,
>)
    ensures
        text::opt_text(uri) == outstanding(
            set@,
            schema@,
            outside::resources(known@),
            known@.len(),
        ),
{
    let ghost all = outside::resources(known@);
    let mut found = find_lacking(set, known, schema);
    let mut i: usize = 0;
    while i < known.len()
        invariant
            i <= known@.len(),
            all == outside::resources(known@),
            text::opt_text(found) == outstanding(set@, schema@, all, i as nat),
        decreases known@.len() - i,
    {
        assert(all[i as int] == (known@[i as int].0@, known@[i as int].1@));
        if found.is_none() {
            found = find_lacking(set, known, &known[i].1);
        }
        i += 1;
    }
    found
}

/// Whether compiling a schema calls for a resource: a document at hand names it
/// as its meta-schema, or it is missing.
pub open spec fn called_for(schema: Json, known: Seq<(Seq<char>, Json)>, uri: Seq<char>) -> bool {
    ||| outside::plain_uri(uri) && metaschema(schema) == Some(uri)
    ||| outside::plain_uri(uri) && exists|i: int|
        0 <= i < known.len() && metaschema((#[trigger] known[i]).1) == Some(uri)
    ||| outside::missing_references(schema, outside::by_uri(known)).contains(uri)
}

/// Resources taken from the signed set one by one, each where compiling the
/// schema called for it, and none twice.
pub open spec fn gathered(
    set: Seq<(Seq<char>, Json)>,
    schema: Json,
    known: Seq<(Seq<char>, Json)>,
) -> bool
    decreases known.len(),
{
    known.len() == 0 || {
        let before = known.drop_last();
        &&& gathered(set, schema, before)
        &&& signed_resource(set, known.last())
        &&& !at_hand(before, known.last().0)
        &&& called_for(schema, before, known.last().0)
    }
}

/// Why compiling stops at a missing reference that no resource can be supplied
/// for.
pub open spec fn stop_reason(
    schema: Json,
    known: Seq<(Seq<char>, Json)>,
    uri: Seq<char>,
    told: Seq<char>,
    refused: Seq<char>,
) -> Seq<char> {
    if metaschema(schema) == Some(uri) {
        "Unknown meta-schema: '"@ + schema.text_at("$schema"@)->Some_0
            + "'. Custom meta-schemas must be registered in the registry before use"@
    } else {
        "Resource '"@ + uri + "' is not present in a registry and retrieving it failed: "@ + (if at_hand(
            known,
            uri,
        ) || told == NO_BASE@ {
            told
        } else {
            refused
        })
    }
}

fn stop_text(schema: &Doc, known: &Vec<(String, Doc)>, uri: &str, told: &str, refused: &str) -> (
reason: String)
    ensures
        reason@ == stop_reason(schema@, outside::resources(known@), uri@, told@, refused@),
{
    let dialect = match metaschema_of(schema) {
        Some(named) => if text::same_text(named.as_str(), uri) {
            json::text_member(schema, "$schema")
        } else {
            None
        },
        None => None,
    };
    let mut reason: String;
    if let Some(named) = dialect {
        reason = "Unknown meta-schema: '".to_owned();
        reason.push_str(named);
        reason.push_str("'. Custom meta-schemas must be registered in the registry before use");
    } else {
        reason = "Resource '".to_owned();
        reason.push_str(uri);
        reason.push_str("' is not present in a registry and retrieving it failed: ");
        if has_resource(known, uri) || text::same_text(told, NO_BASE) {
            reason.push_str(told);
        } else {
            reason.push_str(refused);
        }
    }
    reason
}

/// What a reference's refusal is told as; nothing where it resolves.
pub open spec fn refused_as(set: Seq<(Seq<char>, Json)>, uri: Seq<char>) -> Seq<char> {
    match resolution(set, uri) {
        Ok(_) => Seq::empty(),
        Err(e) => e,
    }
}

/// Whether the signed set has a resource for a reference, and it is not at hand
/// already.
pub open spec fn suppliable(
    set: Seq<(Seq<char>, Json)>,
    known: Seq<(Seq<char>, Json)>,
    uri: Seq<char>,
) -> bool {
    resolution(set, uri) is Ok && !at_hand(known, uri)
}

/// One more resource from the signed set, under the URI that names it.
pub open spec fn supplied(
    set: Seq<(Seq<char>, Json)>,
    known: Seq<(Seq<char>, Json)>,
    uri: Seq<char>,
) -> Seq<(Seq<char>, Json)> {
    known.push((uri, resolution(set, uri)->Ok_0.schema))
}

fn supply(set: &SchemaSet, uri: String, known: &mut Vec<(String, Doc)>, repairs: &mut Vec<String>)
    -> (r: Result<(), Error>)
    ensures
        match resolution(set@, uri@) {
            Ok(found) => {
                &&& r is Ok
                &&& outside::resources(final(known)@) == supplied(
                    set@,
                    outside::resources(old(known)@),
                    uri@,
                )
                &&& text::texts(final(repairs)@) == noted(
                    text::texts(old(repairs)@),
                    found.repair,
                )
            },
            Err(e) => {
                &&& r matches Err(error) && error@ == e
                &&& final(known)@ == old(known)@
                &&& final(repairs)@ == old(repairs)@
            },
        },
{
    match retrieve(set, uri.as_str(), repairs) {
        Ok(resource) => {
            let ghost before = outside::resources(known@);
            let ghost added = (uri@, resource@);
            known.push((uri, resource));
            assert(outside::resources(known@) =~= before.push(added));
            Ok(())
        },
        Err(e) => Err(e),
    }
}

/// What follows from one attempt: the violations where the package was
/// checked; one more resource where a reference was missing and the signed set
/// has it; an error otherwise.
pub fn settle(
    set: &SchemaSet,
    schema: &Doc,
    schema_name: &str,
    attempt: Attempt,
    known: &mut Vec<(String, Doc)>,
    repairs: &mut Vec<String>,
) -> (r: Result<Option<Vec<(String, String)>>, Error>)
    ensures
        match attempt {
            Attempt::Checked(violations) => {
                &&& r == Ok::<Option<Vec<(String, String)>>, Error>(Some(violations))
                &&& final(known)@ == old(known)@
                &&& final(repairs)@ == old(repairs)@
            },
            Attempt::Failed(why) => {
                &&& r matches Err(e) && e@ == not_compiled(schema_name@, why@)
                &&& final(known)@ == old(known)@
                &&& final(repairs)@ == old(repairs)@
            },
            Attempt::Missing(uri, told) => if suppliable(
                set@,
                outside::resources(old(known)@),
                uri@,
            ) {
                &&& r == Ok::<Option<Vec<(String, String)>>, Error>(None)
                &&& outside::resources(final(known)@) == supplied(
                    set@,
                    outside::resources(old(known)@),
                    uri@,
                )
                &&& text::texts(final(repairs)@) == noted(
                    text::texts(old(repairs)@),
                    resolution(set@, uri@)->Ok_0.repair,
                )
            } else {
                &&& r matches Err(e) && e@ == not_compiled(
                    schema_name@,
                    stop_reason(
                        schema@,
                        outside::resources(old(known)@),
                        uri@,
                        told@,
                        refused_as(set@, uri@),
                    ),
                )
                &&& final(known)@ == old(known)@
                &&& final(repairs)@ == old(repairs)@
            },
        },
{
    match attempt {
        Attempt::Checked(violations) => Ok(Some(violations)),
        Attempt::Failed(why) => Err(refuse_schema(schema_name, why.as_str())),
        Attempt::Missing(uri, told) => {
            if has_resource(known, uri.as_str()) {
                let reason = stop_text(schema, known, uri.as_str(), told.as_str(), "");
                return Err(refuse_schema(schema_name, reason.as_str()));
            }
            let name = uri.clone();
            match supply(set, uri, known, repairs) {
                Ok(_) => Ok(None),
                Err(e) => {
                    let reason = stop_text(
                        schema,
                        known,
                        name.as_str(),
                        told.as_str(),
                        e.message.as_str(),
                    );
                    Err(refuse_schema(schema_name, reason.as_str()))
                },
            }
        },
    }
}

/// The resources with which a schema compiled, all that compiling it called
/// for, and the violations that the package was found to hold.
pub open spec fn compiled_with(
    set: Seq<(Seq<char>, Json)>,
    schema: Json,
    package: Json,
    known: Seq<(Seq<char>, Json)>,
    violations: Multiset<(Seq<char>, Seq<char>)>,
) -> bool {
    let resources = outside::by_uri(known);
    let ends = outside::check_outcomes(schema, resources, package);
    &&& gathered(set, schema, known)
    &&& outstanding(set, schema, known, known.len()) is None
    &&& ends.contains(Some(violations))
    &&& outside::unambiguous(resources) ==> ends == set![Some(violations)]
    &&& outside::unambiguous(resources) && outside::one_dialect_each(schema, resources)
        ==> outside::settled(schema, resources)
}

/// The resources with which a schema did not compile, or which nothing in the
/// signed set extends, and how that was told.
pub open spec fn stuck_with(
    set: Seq<(Seq<char>, Json)>,
    schema: Json,
    package: Json,
    known: Seq<(Seq<char>, Json)>,
    reason: Seq<char>,
) -> bool {
    let resources = outside::by_uri(known);
    let ends = outside::check_outcomes(schema, resources, package);
    let missing = outside::missing_references(schema, resources);
    &&& gathered(set, schema, known)
    &&& outstanding(set, schema, known, known.len()) is None
    &&& outside::unambiguous(resources) ==> forall|violations: Multiset<(Seq<char>, Seq<char>)>|
        !ends.contains(Some(violations))
    &&& (ends.contains(None) && (outside::unambiguous(resources) ==> missing
        == outside::no_references())) || exists|uri: Seq<char>, told: Seq<char>|
        missing.contains(uri) && !suppliable(set, known, uri) && reason == #[trigger] stop_reason(
            schema,
            known,
            uri,
            told,
            refused_as(set, uri),
        )
}

/// Whether a schema compiles by itself, and the package is found to hold these
/// violations.
pub open spec fn self_contained(
    set: Seq<(Seq<char>, Json)>,
    schema: Json,
    package: Json,
    violations: Multiset<(Seq<char>, Seq<char>)>,
) -> bool {
    lacking(set, Seq::empty(), schema) is None && outside::check_outcomes(
        schema,
        Map::empty(),
        package,
    ).contains(Some(violations))
}

pub open spec fn needs_nothing(set: Seq<(Seq<char>, Json)>, schema: Json, package: Json) -> bool {
    exists|violations: Multiset<(Seq<char>, Seq<char>)>| #[trigger]
        self_contained(set, schema, package, violations)
}

/// What checking a package came to: the violations and the repairs, or the
/// reason why the schema does not compile.
pub open spec fn outcome(
    set: Seq<(Seq<char>, Json)>,
    schema: Json,
    package: Json,
    known: Seq<(Seq<char>, Json)>,
    r: Result<(Multiset<(Seq<char>, Seq<char>)>, Seq<Seq<char>>), Seq<char>>,
) -> bool {
    match r {
        Ok((violations, repairs)) => {
            &&& compiled_with(set, schema, package, known, violations)
            &&& repairs == repairs_for(set, known)
            &&& needs_nothing(set, schema, package) ==> known.len() == 0
        },
        Err(reason) => stuck_with(set, schema, package, known, reason) && !needs_nothing(
            set,
            schema,
            package,
        ),
    }
}

/// Whether checking a package can come to this, with the resources that some
/// order of retrieval gathers.
pub open spec fn possible(
    set: Seq<(Seq<char>, Json)>,
    schema: Json,
    package: Json,
    r: Result<(Multiset<(Seq<char>, Seq<char>)>, Seq<Seq<char>>), Seq<char>>,
) -> bool {
    exists|known: Seq<(Seq<char>, Json)>| #[trigger] outcome(set, schema, package, known, r)
}

/// Each resource that a reference can name, by its URI: the schemas, and the
/// definitions in them under the published path form.
pub open spec fn nameable(set: Seq<(Seq<char>, Json)>) -> Seq<Seq<char>>
    decreases set.len(),
{
    if set.len() == 0 {
        Seq::empty()
    } else {
        let uri = SCHEMA_BASE@ + set.last().0;
        nameable(set.drop_last()).push(uri) + match set.last().1.object_at("$defs"@) {
            Some(defs) => defs.map_values(|d: (Seq<char>, Json)| uri + DEFS_MARKER@ + d.0),
            None => Seq::empty(),
        }
    }
}

proof fn lemma_nameable_at(set: Seq<(Seq<char>, Json)>, i: int, uri: Seq<char>)
    requires
        0 <= i < set.len(),
        ({
            let own = SCHEMA_BASE@ + set[i].0;
            uri == own || (set[i].1.object_at("$defs"@) matches Some(defs) && exists|j: int|
                0 <= j < defs.len() && uri == own + DEFS_MARKER@ + (#[trigger] defs[j]).0)
        }),
    ensures
        nameable(set).contains(uri),
    decreases set.len(),
{
    let own = SCHEMA_BASE@ + set.last().0;
    let before = nameable(set.drop_last());
    let rest = match set.last().1.object_at("$defs"@) {
        Some(defs) => defs.map_values(|d: (Seq<char>, Json)| own + DEFS_MARKER@ + d.0),
        None => Seq::empty(),
    };
    let all = before.push(own) + rest;
    assert(nameable(set) == all);
    if i < set.len() - 1 {
        lemma_nameable_at(set.drop_last(), i, uri);
        let k = choose|k: int| 0 <= k < before.len() && before[k] == uri;
        assert(all[k] == uri);
    } else if uri == own {
        assert(all[before.len() as int] == uri);
    } else {
        let defs = set.last().1.object_at("$defs"@)->Some_0;
        let j = choose|j: int| 0 <= j < defs.len() && uri == own + DEFS_MARKER@ + (
        #[trigger] defs[j]).0;
        assert(rest[j] == uri);
        assert(all[before.len() + 1 + j] == uri);
    }
}

/// A reference that resolves names one of the nameable resources.
proof fn lemma_resolves_to_nameable(set: Seq<(Seq<char>, Json)>, uri: Seq<char>)
    requires
        resolution(set, uri) is Ok,
    ensures
        nameable(set).contains(uri),
{
    let rest = uri.skip(SCHEMA_BASE@.len() as int);
    assert(uri =~= SCHEMA_BASE@ + rest);
    match text::split_at_marker(rest, DEFS_MARKER@) {
        None => {
            let i = table::lemma_lookup_index(set, rest);
            lemma_nameable_at(set, i, uri);
        },
        Some((file, pointer)) => {
            let i = table::lemma_lookup_index(set, file);
            let defs = set[i].1.object_at("$defs"@)->Some_0;
            let j = table::lemma_lookup_index(defs, pointer);
            text::lemma_split_at_marker(rest, DEFS_MARKER@);
            assert(rest == file + DEFS_MARKER@ + pointer);
            assert(uri =~= SCHEMA_BASE@ + file + DEFS_MARKER@ + pointer);
            assert(defs[j].0 == pointer);
            lemma_nameable_at(set, i, uri);
        },
    }
}

pub open spec fn uris_of(known: Seq<(Seq<char>, Json)>) -> Seq<Seq<char>> {
    known.map_values(|r: (Seq<char>, Json)| r.0)
}

/// Gathered resources are signed, stand under URIs that all differ, and each
/// was called for where it was taken.
proof fn lemma_gathered_parts(
    set: Seq<(Seq<char>, Json)>,
    schema: Json,
    known: Seq<(Seq<char>, Json)>,
    n: int,
)
    requires
        gathered(set, schema, known),
        0 <= n <= known.len(),
    ensures
        gathered(set, schema, known.take(n)),
        all_signed(set, known),
        uris_of(known).no_duplicates(),
    decreases known.len(),
{
    if known.len() > 0 {
        let before = known.drop_last();
        lemma_gathered_parts(
            set,
            schema,
            before,
            if n < known.len() {
                n
            } else {
                before.len() as int
            },
        );
        if n < known.len() {
            assert(before.take(n) =~= known.take(n));
        } else {
            assert(known.take(n) =~= known);
        }
        assert forall|i: int| 0 <= i < known.len() implies signed_resource(
            set,
            #[trigger] known[i],
        ) by {
            if i < before.len() {
                assert(before[i] == known[i]);
            }
        }
        let uris = uris_of(known);
        assert forall|i: int, j: int| 0 <= i < uris.len() && 0 <= j < uris.len() && i
            != j implies uris[i] != uris[j] by {
            let a = if i < j {
                i
            } else {
                j
            };
            let b = if i < j {
                j
            } else {
                i
            };
            if b < before.len() {
                assert(uris_of(before)[a] == uris[a] && uris_of(before)[b] == uris[b]);
            } else {
                assert(before[a] == known[a]);
            }
        }
    } else {
        assert(known.take(n) =~= known);
    }
}

/// No more resources are gathered than can be named.
proof fn lemma_gathered_bound(
    set: Seq<(Seq<char>, Json)>,
    schema: Json,
    known: Seq<(Seq<char>, Json)>,
)
    requires
        gathered(set, schema, known),
    ensures
        known.len() <= nameable(set).len(),
{
    let uris = uris_of(known);
    let all = nameable(set);
    lemma_gathered_parts(set, schema, known, known.len() as int);
    assert forall|uri: Seq<char>| uris.to_set().contains(uri) implies all.to_set().contains(
        uri,
    ) by {
        let i = choose|i: int| 0 <= i < uris.len() && uris[i] == uri;
        assert(signed_resource(set, known[i]));
        lemma_resolves_to_nameable(set, uri);
    }
    uris.unique_seq_to_set();
    all.lemma_cardinality_of_set();
    vstd::seq_lib::seq_to_set_is_finite(all);
    vstd::set_lib::lemma_len_subset(uris.to_set(), all.to_set());
}

/// Supplying a resource that is called for keeps the resources gathered.
proof fn lemma_supplied(
    set: Seq<(Seq<char>, Json)>,
    schema: Json,
    known: Seq<(Seq<char>, Json)>,
    uri: Seq<char>,
)
    requires
        gathered(set, schema, known),
        suppliable(set, known, uri),
        called_for(schema, known, uri),
    ensures
        gathered(set, schema, supplied(set, known, uri)),
        supplied(set, known, uri).len() == known.len() + 1,
        supplied(set, known, uri).len() <= nameable(set).len(),
        repairs_for(set, supplied(set, known, uri)) == noted(
            repairs_for(set, known),
            resolution(set, uri)->Ok_0.repair,
        ),
{
    let after = supplied(set, known, uri);
    assert(after.drop_last() =~= known);
    lemma_gathered_bound(set, schema, after);
}

/// The resources stand under URIs in normal form.
spec fn all_normal(known: Seq<(Seq<char>, Json)>) -> bool {
    forall|i: int|
        0 <= i < known.len() ==> outside::in_normal_form((#[trigger] known[i]).0)
}

/// An outstanding meta-schema is called for and can be supplied.
proof fn lemma_outstanding(
    set: Seq<(Seq<char>, Json)>,
    schema: Json,
    known: Seq<(Seq<char>, Json)>,
    n: nat,
)
    requires
        n <= known.len(),
        outstanding(set, schema, known, n) is Some,
    ensures
        suppliable(set, known, outstanding(set, schema, known, n)->Some_0),
        outside::plain_uri(outstanding(set, schema, known, n)->Some_0),
        called_for(schema, known, outstanding(set, schema, known, n)->Some_0),
    decreases n,
{
    if n > 0 {
        if outstanding(set, schema, known, (n - 1) as nat) is Some {
            lemma_outstanding(set, schema, known, (n - 1) as nat);
        } else {
            assert(metaschema(known[n - 1].1) is Some);
        }
    }
}

/// Checks a package, resolving references from the signed set as they turn up.
fn violations_of(
    set: &SchemaSet,
    schema: &Doc,
    schema_name: &str,
    package: &Doc,
) -> (r: Result<(Vec<(String, String)>, Vec<String>), Error>)
    ensures
        match r {
            Ok(found) => possible(
                set@,
                schema@,
                package@,
                Ok((outside::text_pairs(found.0@).to_multiset(), text::texts(found.1@))),
            ),
            Err(e) => exists|reason: Seq<char>|
                (#[trigger] possible(set@, schema@, package@, Err(reason))) && e@ == not_compiled(
                    schema_name@,
                    reason,
                ),
        },
{
    let mut known: Vec<(String, Doc)> = Vec::new();
    let mut repairs: Vec<String> = Vec::new();
    assert(outside::resources(known@) =~= Seq::<(Seq<char>, Json)>::empty());
    assert(text::texts(repairs@) =~= repairs_for(set@, outside::resources(known@)));
    loop
        invariant
            gathered(set@, schema@, outside::resources(known@)),
            all_normal(outside::resources(known@)),
            known@.len() <= nameable(set@).len(),
            text::texts(repairs@) == repairs_for(set@, outside::resources(known@)),
            needs_nothing(set@, schema@, package@) ==> known@.len() == 0,
        decreases nameable(set@).len() - known@.len(),
    {
        let ghost held = outside::resources(known@);
        assert(known@.len() == 0 ==> held =~= Seq::<(Seq<char>, Json)>::empty());
        match find_outstanding(set, schema, &known) {
            Some(uri) => {
                proof {
                    lemma_outstanding(set@, schema@, held, held.len());
                    lemma_supplied(set@, schema@, held, uri@);
                }
                let _ = supply(set, uri, &mut known, &mut repairs);
                assert(outside::resources(known@).len() == known@.len());
                continue ;
            },
            None => {},
        }
        assert forall|i: int| 0 <= i < known@.len() implies outside::in_normal_form(
            (#[trigger] known@[i]).0@,
        ) by {
            assert(held[i].0 == known@[i].0@);
        }
        let attempt = outside::check_package(schema, &known, package);
        let ghost made = attempt;
        proof {
            if made is Missing && suppliable(set@, held, outside::reference_in(made)) {
                lemma_supplied(set@, schema@, held, outside::reference_in(made));
            }
        }
        match settle(set, schema, schema_name, attempt, &mut known, &mut repairs) {
            Ok(Some(violations)) => {
                let found = (violations, repairs);
                proof {
                    let came_to = Ok((
                        outside::text_pairs(found.0@).to_multiset(),
                        text::texts(found.1@),
                    ));
                    assert(outcome(set@, schema@, package@, held, came_to));
                    assert(possible(set@, schema@, package@, came_to));
                }
                return Ok(found);
            },
            Ok(None) => {
                assert(outside::resources(known@).len() == known@.len());
            },
            Err(e) => {
                proof {
                    let reason = match made {
                        Attempt::Failed(why) => why@,
                        Attempt::Missing(uri, told) => stop_reason(
                            schema@,
                            held,
                            uri@,
                            told@,
                            refused_as(set@, uri@),
                        ),
                        _ => Seq::empty(),
                    };
                    assert(stuck_with(set@, schema@, package@, held, reason));
                    assert(outcome(set@, schema@, package@, held, Err(reason)));
                    assert(possible(set@, schema@, package@, Err(reason)));
                }
                return Err(e);
            },
        }
    }
}

/// What validation comes to, given how checking the package ended.
pub open spec fn concluded(
    schema: Json,
    rules: Option<Json>,
    schema_name: Seq<char>,
    package: Seq<u8>,
    label: Seq<char>,
    found: Result<(Multiset<(Seq<char>, Seq<char>)>, Seq<Seq<char>>), Seq<char>>,
) -> Result<Assessment, Seq<char>> {
    match found {
        Ok((violations, repairs)) => assessed(
            schema,
            rules,
            schema_name,
            package,
            label,
            violations,
            repairs,
        ),
        Err(reason) => Err(not_compiled(schema_name, reason)),
    }
}

/// Validate `package` against a signed schema. Never touches the network: a
/// reference resolves within the signed set, or the schema does not compile.
pub fn validate(
    schemas: &SchemaSet,
    rules: Option<&Doc>,
    schema_name: &str,
    package_bytes: &[u8],
    package_label: &str,
) -> (r: Result<Report, Error>)
    ensures
        outside::json_parse(package_bytes@) is Err ==> (r matches Err(e) && e@
            == "package is not valid JSON"@),
        outside::json_parse(package_bytes@) is Ok && table::lookup(schemas@, schema_name@) is None
            ==> (r matches Err(e) && e@ == "no signed schema named `"@ + schema_name@ + "`"@),
        match (outside::json_parse(package_bytes@), table::lookup(schemas@, schema_name@)) {
            (Ok(package), Some(schema)) => exists|
                found: Result<(Multiset<(Seq<char>, Seq<char>)>, Seq<Seq<char>>), Seq<char>>,
            |
                (#[trigger] possible(schemas@, schema, package, found)) && assessment_or(r)
                    == concluded(
                    schema,
                    json::opt_json(rules),
                    schema_name@,
                    package_bytes@,
                    package_label@,
                    found,
                ),
            _ => true,
        },
        match (outside::json_parse(package_bytes@), table::lookup(schemas@, schema_name@)) {
            (Ok(package), Some(schema)) => forall|
                violations: Multiset<(Seq<char>, Seq<char>)>,
            |
                #[trigger] self_contained(schemas@, schema, package, violations) ==> assessment_or(
                    r,
                ) == assessed(
                    schema,
                    json::opt_json(rules),
                    schema_name@,
                    package_bytes@,
                    package_label@,
                    violations,
                    Seq::empty(),
                ),
            _ => true,
        },
        r matches Ok(report) ==> {
            &&& report.package@ == package_label@
            &&& report.package_sha256@ == canon::hex_of(outside::sha256(package_bytes@))
            &&& report.bytes == package_bytes@.len()
            &&& report.schema@ == schema_name@
            &&& table::lookup(schemas@, schema_name@) matches Some(schema)
                && canon::document_digest(schema) == Ok::<Seq<char>, Seq<char>>(
                report.schema_sha256@,
            )
            &&& outside::json_parse(package_bytes@) is Ok
            &&& report.valid <==> report.findings@.len() == 0
            &&& rules is None ==> report.required_by@.len() == 0
            &&& rules matches Some(rules) ==> text::texts(report.required_by@) == required_by(
                rules@,
                schema_name@,
            )
        },
{
    let package = match outside::parse_json(package_bytes) {
        Ok(package) => package,
        Err(_) => {
            return Err(Error::new("package is not valid JSON"));
        },
    };
    let schema = match schemas.get(schema_name) {
        Some(schema) => schema,
        None => {
            return Err(Error::about("no signed schema named `", schema_name, "`"));
        },
    };
    match violations_of(schemas, schema, schema_name, &package) {
        Ok((violations, repairs)) => {
            proof {
                let found = (
                    outside::text_pairs(violations@).to_multiset(),
                    text::texts(repairs@),
                );
                let known = choose|known: Seq<(Seq<char>, Json)>| #[trigger]
                    outcome(schemas@, schema@, package@, known, Ok(found));
                assert(outcome(schemas@, schema@, package@, known, Ok(found)));
                if known.len() == 0 {
                    assert(outside::by_uri(known) == Map::<Seq<char>, Json>::empty());
                    assert(repairs_for(schemas@, known) == Seq::<Seq<char>>::empty());
                }
            }
            assess(
                schema,
                rules,
                schema_name,
                package_bytes,
                package_label,
                &violations,
                repairs,
            )
        },
        Err(e) => Err(e),
    }
}

// For humans.

pub open spec fn verdict_word(valid: bool) -> Seq<char> {
    if valid {
        "VALID"@
    } else {
        "INVALID"@
    }
}

pub open spec fn required_on(out: Seq<char>, ids: Seq<Seq<char>>) -> Seq<char> {
    if ids.len() == 0 {
        out
    } else {
        out + "| required by | "@ + text::join(ids, ", "@) + " |\n"@
    }
}

pub open spec fn fault_lines_on(out: Seq<char>, list: Seq<Fault>) -> Seq<char>
    decreases list.len(),
{
    if list.len() == 0 {
        out
    } else {
        fault_lines_on(out, list.drop_last()) + "- `"@ + list.last().pointer + "` — "@
            + list.last().message + "\n"@
    }
}

pub open spec fn findings_on(out: Seq<char>, list: Seq<Fault>) -> Seq<char> {
    if list.len() == 0 {
        out
    } else {
        fault_lines_on(out + "## Findings\n\n"@, list) + "\n"@
    }
}

pub open spec fn repairs_on(out: Seq<char>, list: Seq<Seq<char>>) -> Seq<char> {
    if list.len() == 0 {
        out
    } else {
        report::ids_on(
            out
                + "## Reference repairs\n\nThe published schemas reference definitions by a path that does not resolve. Validation applied these repairs:\n\n"@,
            list,
        ) + "\n"@
    }
}

pub open spec fn report_text(r: Assessment) -> Seq<char> {
    let head = "# "@ + r.package + " — "@ + verdict_word(r.valid)
        + "\n\n| | |\n|---|---|\n| schema | `"@ + r.schema + "` |\n| schema digest | `"@
        + r.schema_sha256 + "` |\n| package digest | `"@ + r.package_sha256
        + "` |\n| findings | "@ + text::decimal(r.findings.len()) + " |\n"@;
    repairs_on(findings_on(required_on(head, r.required_by) + "\n"@, r.findings), r.repairs)
}

fn push_findings(out: &mut String, list: &Vec<Finding>)
    ensures
        final(out)@ == findings_on(old(out)@, faults(list@)),
{
    if list.len() == 0 {
        return;
    }
    out.push_str("## Findings\n\n");
    let ghost start = out@;
    let ghost all = faults(list@);
    let mut i: usize = 0;
    while i < list.len()
        invariant
            i <= list@.len(),
            all == faults(list@),
            out@ == fault_lines_on(start, all.take(i as int)),
        decreases list@.len() - i,
    {
        proof {
            assert(all.take(i + 1).drop_last() =~= all.take(i as int));
            assert(all.take(i + 1).last() == list@[i as int]@);
        }
        out.push_str("- `");
        out.push_str(list[i].pointer.as_str());
        out.push_str("` — ");
        out.push_str(list[i].message.as_str());
        out.push_str("\n");
        i += 1;
    }
    assert(all.take(all.len() as int) =~= all);
    out.push_str("\n");
}

pub fn report_markdown(report: &Report) -> (out: String)
    ensures
        out@ == report_text(report@),
{
    let mut out = "# ".to_owned();
    out.push_str(report.package.as_str());
    out.push_str(" — ");
    out.push_str(
        if report.valid {
            "VALID"
        } else {
            "INVALID"
        },
    );
    out.push_str("\n\n| | |\n|---|---|\n| schema | `");
    out.push_str(report.schema.as_str());
    out.push_str("` |\n| schema digest | `");
    out.push_str(report.schema_sha256.as_str());
    out.push_str("` |\n| package digest | `");
    out.push_str(report.package_sha256.as_str());
    out.push_str("` |\n| findings | ");
    out.push_str(text::decimal_text(report.findings.len() as u64).as_str());
    out.push_str(" |\n");
    assert(report@.required_by.len() == report.required_by@.len());
    if report.required_by.len() > 0 {
        out.push_str("| required by | ");
        out.push_str(text::join_texts(&report.required_by, ", ").as_str());
        out.push_str(" |\n");
    }
    out.push_str("\n");
    push_findings(&mut out, &report.findings);
    assert(report@.repairs.len() == report.repairs@.len());
    if report.repairs.len() > 0 {
        out.push_str(
            "## Reference repairs\n\nThe published schemas reference definitions by a path that does not resolve. Validation applied these repairs:\n\n",
        );
        report::push_ids(&mut out, &report.repairs, report.repairs.len());
        assert(report@.repairs.take(report@.repairs.len() as int) =~= report@.repairs);
        out.push_str("\n");
    }
    out
}

// Laws.

/// A reference outside the published base is refused, never fetched.
pub proof fn law_foreign_references_are_refused(set: Seq<(Seq<char>, Json)>, uri: Seq<char>)
    requires
        !text::begins(uri, SCHEMA_BASE@),
    ensures
        resolution(set, uri) is Err,
{
}

/// What a reference without a repair resolves to is a signed schema as signed.
pub proof fn law_unrepaired_schemas_are_as_signed(set: Seq<(Seq<char>, Json)>, uri: Seq<char>)
    requires
        resolution(set, uri) matches Ok(found) && found.repair is None,
    ensures
        table::lookup(set, uri.skip(SCHEMA_BASE@.len() as int)) == Some(
            resolution(set, uri)->Ok_0.schema,
        ),
{
}

proof fn lemma_placed_members(list: Seq<Fault>, f: Fault, i: int)
    requires
        0 <= i < placed(list, f).len(),
    ensures
        placed(list, f)[i] == f || exists|k: int|
            0 <= k < list.len() && #[trigger] list[k] == placed(list, f)[i],
    decreases list.len(),
{
    if list.len() > 0 && fault_lt(f, list.last()) {
        let rest = list.drop_last();
        if i < placed(rest, f).len() {
            lemma_placed_members(rest, f, i);
            if placed(list, f)[i] != f {
                let k = choose|k: int| 0 <= k < rest.len() && #[trigger] rest[k] == placed(rest, f)[i];
                assert(list[k] == placed(list, f)[i]);
            }
        } else {
            assert(list[list.len() - 1] == placed(list, f)[i]);
        }
    } else if i < list.len() {
        assert(list[i] == placed(list, f)[i]);
    }
}

proof fn lemma_fault_lt(a: Fault, b: Fault, c: Fault)
    ensures
        !fault_lt(a, a),
        fault_lt(a, b) && fault_lt(b, c) ==> fault_lt(a, c),
        a == b || fault_lt(a, b) || fault_lt(b, a),
{
    text::lemma_text_lt_irreflexive(a.pointer);
    text::lemma_text_lt_irreflexive(a.message);
    text::lemma_text_lt_total(a.pointer, b.pointer);
    text::lemma_text_lt_total(a.message, b.message);
    if fault_lt(a, b) && fault_lt(b, c) {
        if text::text_lt(a.pointer, b.pointer) && text::text_lt(b.pointer, c.pointer) {
            text::lemma_text_lt_transitive(a.pointer, b.pointer, c.pointer);
        }
        if text::text_lt(a.message, b.message) && text::text_lt(b.message, c.message) {
            text::lemma_text_lt_transitive(a.message, b.message, c.message);
        }
    }
}

/// No fault stands before a smaller one.
pub open spec fn in_order(list: Seq<Fault>) -> bool {
    forall|i: int, j: int|
        0 <= i < j < list.len() ==> !fault_lt(#[trigger] list[j], #[trigger] list[i])
}

proof fn lemma_placed_sorted(list: Seq<Fault>, f: Fault)
    requires
        in_order(list),
    ensures
        in_order(placed(list, f)),
        placed(list, f).len() == list.len() + 1,
    decreases list.len(),
{
    let all = placed(list, f);
    if list.len() > 0 && fault_lt(f, list.last()) {
        let rest = list.drop_last();
        assert forall|i: int, j: int| 0 <= i < j < rest.len() implies !fault_lt(
            #[trigger] rest[j],
            #[trigger] rest[i],
        ) by {
            assert(rest[i] == list[i] && rest[j] == list[j]);
        }
        lemma_placed_sorted(rest, f);
        let inner = placed(rest, f);
        assert forall|i: int, j: int| 0 <= i < j < all.len() implies !fault_lt(
            #[trigger] all[j],
            #[trigger] all[i],
        ) by {
            if j < inner.len() {
                assert(all[i] == inner[i] && all[j] == inner[j]);
            } else {
                assert(all[i] == inner[i] && all[j] == list.last());
                lemma_placed_members(rest, f, i);
                if inner[i] == f {
                    lemma_fault_lt(f, list.last(), f);
                } else {
                    let k = choose|k: int| 0 <= k < rest.len() && #[trigger] rest[k] == inner[i];
                    assert(rest[k] == list[k]);
                    assert(!fault_lt(list[list.len() - 1], list[k]));
                }
            }
        }
    } else if list.len() > 0 {
        assert forall|i: int, j: int| 0 <= i < j < all.len() implies !fault_lt(
            #[trigger] all[j],
            #[trigger] all[i],
        ) by {
            if j < list.len() {
                assert(all[i] == list[i] && all[j] == list[j]);
            } else {
                assert(all[i] == list[i] && all[j] == f);
                let last = list[list.len() - 1];
                if i < list.len() - 1 {
                    assert(!fault_lt(last, list[i]));
                    lemma_fault_lt(list[i], last, f);
                    lemma_fault_lt(f, list[i], last);
                }
            }
        }
    }
}

/// Findings come in order, as many as there are violations: a report is valid
/// if and only if it has none.
pub proof fn law_findings_are_sorted(violations: Seq<(Seq<char>, Seq<char>)>)
    ensures
        in_order(sorted_faults(violations)),
        sorted_faults(violations).len() == violations.len(),
    decreases violations.len(),
{
    if violations.len() > 0 {
        law_findings_are_sorted(violations.drop_last());
        lemma_placed_sorted(sorted_faults(violations.drop_last()), fault_of(violations.last()));
    }
}

proof fn lemma_placed_multiset(list: Seq<Fault>, f: Fault)
    ensures
        placed(list, f).to_multiset() == list.to_multiset().insert(f),
    decreases list.len(),
{
    broadcast use vstd::multiset::group_multiset_axioms;

    if list.len() > 0 && fault_lt(f, list.last()) {
        let rest = list.drop_last();
        lemma_placed_multiset(rest, f);
        vstd::seq_lib::to_multiset_build(placed(rest, f), list.last());
        vstd::seq_lib::to_multiset_build(rest, list.last());
        assert(rest.push(list.last()) =~= list);
        assert(rest.to_multiset().insert(f).insert(list.last()) =~= rest.to_multiset().insert(
            list.last(),
        ).insert(f));
    } else {
        vstd::seq_lib::to_multiset_build(list, f);
    }
}

/// Taking one violation out takes its fault out.
proof fn lemma_without_violation(v: Seq<(Seq<char>, Seq<char>)>, i: int)
    requires
        0 <= i < v.len(),
    ensures
        sorted_faults(v).to_multiset() == sorted_faults(v.remove(i)).to_multiset().insert(
            fault_of(v[i]),
        ),
    decreases v.len(),
{
    broadcast use vstd::multiset::group_multiset_axioms;

    let rest = v.drop_last();
    lemma_placed_multiset(sorted_faults(rest), fault_of(v.last()));
    if i == v.len() - 1 {
        assert(v.remove(i) =~= rest);
    } else {
        lemma_without_violation(rest, i);
        let fewer = v.remove(i);
        assert(fewer.drop_last() =~= rest.remove(i));
        assert(fewer.last() == v.last());
        lemma_placed_multiset(sorted_faults(rest.remove(i)), fault_of(v.last()));
        assert(sorted_faults(v).to_multiset() =~= sorted_faults(fewer).to_multiset().insert(
            fault_of(v[i]),
        ));
    }
}

proof fn lemma_same_faults(a: Seq<(Seq<char>, Seq<char>)>, b: Seq<(Seq<char>, Seq<char>)>)
    requires
        a.to_multiset() == b.to_multiset(),
    ensures
        sorted_faults(a).to_multiset() == sorted_faults(b).to_multiset(),
    decreases a.len(),
{
    broadcast use vstd::multiset::group_multiset_axioms;

    a.to_multiset_ensures();
    b.to_multiset_ensures();
    if a.len() > 0 {
        let x = a.last();
        let last = a.len() - 1;
        assert(a[last] == x);
        assert(a.contains(x));
        assert(b.to_multiset().count(x) > 0);
        let i = choose|i: int| 0 <= i < b.len() && b[i] == x;
        vstd::seq_lib::to_multiset_remove(a, last);
        vstd::seq_lib::to_multiset_remove(b, i);
        assert(a.remove(last) =~= a.drop_last());
        lemma_same_faults(a.drop_last(), b.remove(i));
        lemma_without_violation(a, last);
        lemma_without_violation(b, i);
    }
}

/// The findings do not depend on the order in which violations were met, so
/// output is stable.
pub proof fn law_findings_are_stable(
    a: Seq<(Seq<char>, Seq<char>)>,
    b: Seq<(Seq<char>, Seq<char>)>,
)
    requires
        a.to_multiset() == b.to_multiset(),
    ensures
        sorted_faults(a) == sorted_faults(b),
{
    let leq = |x: Fault, y: Fault| !fault_lt(y, x);
    law_findings_are_sorted(a);
    law_findings_are_sorted(b);
    lemma_same_faults(a, b);
    assert forall|x: Fault, y: Fault, z: Fault|
        #![trigger leq(x, y), leq(y, z)]
        leq(x, y) && leq(y, z) implies leq(x, z) by {
        lemma_fault_lt(z, x, y);
        lemma_fault_lt(x, y, z);
        lemma_fault_lt(y, z, x);
    }
    assert forall|x: Fault| #[trigger] leq(x, x) by {
        lemma_fault_lt(x, x, x);
    }
    assert forall|x: Fault, y: Fault|
        #![trigger leq(x, y)]
        #![trigger leq(y, x)]
        leq(x, y) && leq(y, x) implies x == y by {
        lemma_fault_lt(x, y, x);
    }
    assert forall|x: Fault, y: Fault|
        #![trigger leq(x, y)]
        #![trigger leq(y, x)]
        leq(x, y) || leq(y, x) by {
        lemma_fault_lt(x, y, x);
    }
    assert(vstd::relations::total_ordering(leq));
    vstd::seq_lib::lemma_sorted_unique(sorted_faults(a), sorted_faults(b), leq);
}

/// What stands under a URI is what the URI resolves to.
proof fn lemma_by_uri(set: Seq<(Seq<char>, Json)>, known: Seq<(Seq<char>, Json)>)
    requires
        all_signed(set, known),
    ensures
        forall|uri: Seq<char>| #[trigger]
            outside::by_uri(known).dom().contains(uri) <==> at_hand(known, uri),
        forall|uri: Seq<char>| #[trigger]
            outside::by_uri(known).dom().contains(uri) ==> resolution(set, uri) is Ok
                && outside::by_uri(known)[uri] == resolution(set, uri)->Ok_0.schema,
    decreases known.len(),
{
    if known.len() > 0 {
        let before = known.drop_last();
        assert forall|i: int| 0 <= i < before.len() implies signed_resource(
            set,
            #[trigger] before[i],
        ) by {
            assert(before[i] == known[i]);
        }
        lemma_by_uri(set, before);
        assert(signed_resource(set, known[known.len() - 1]));
        assert forall|uri: Seq<char>| #[trigger]
            outside::by_uri(known).dom().contains(uri) <==> at_hand(known, uri) by {
            if at_hand(before, uri) {
                let i = choose|i: int| 0 <= i < before.len() && (#[trigger] before[i]).0 == uri;
                assert(known[i].0 == uri);
            }
            if uri == known.last().0 {
                assert(known[known.len() - 1].0 == uri);
            }
            if at_hand(known, uri) {
                let i = choose|i: int| 0 <= i < known.len() && (#[trigger] known[i]).0 == uri;
                if i < before.len() {
                    assert(before[i].0 == uri);
                }
            }
        }
    }
}

proof fn lemma_none_outstanding(
    set: Seq<(Seq<char>, Json)>,
    schema: Json,
    known: Seq<(Seq<char>, Json)>,
    n: nat,
)
    requires
        outstanding(set, schema, known, n) is None,
    ensures
        lacking(set, known, schema) is None,
        forall|i: int| 0 <= i < n ==> lacking(set, known, (#[trigger] known[i]).1) is None,
    decreases n,
{
    if n > 0 {
        lemma_none_outstanding(set, schema, known, (n - 1) as nat);
    }
}

/// No two of the resources that the signed set can supply declare one name, and
/// none declares the URI of another, nor does anything inside the schema.
/// Names that no reference can ask the signed set for may be declared freely.
/// Each document is in one dialect throughout.
pub open spec fn well_named(set: Seq<(Seq<char>, Json)>, schema: Json) -> bool {
    &&& outside::one_dialect(schema)
    &&& forall|uri: Seq<char>|
        (#[trigger] resolution(set, uri)) is Ok ==> outside::one_dialect(
            resolution(set, uri)->Ok_0.schema,
        )
    &&& forall|uri: Seq<char>, t: Seq<char>|
        (#[trigger] resolution(set, uri)) is Ok && #[trigger] outside::declares_below(schema, t)
            ==> outside::names_other(t, uri)
    &&& forall|a: Seq<char>, b: Seq<char>, t: Seq<char>|
        #![trigger resolution(set, a), resolution(set, b), outside::names_other(t, b)]
        resolution(set, a) is Ok && resolution(set, b) is Ok && a != b && outside::declares(
            resolution(set, a)->Ok_0.schema,
            t,
        ) ==> outside::names_other(t, b)
    &&& forall|a: Seq<char>, b: Seq<char>, s: Seq<char>, t: Seq<char>|
        #![trigger resolution(set, a), resolution(set, b), outside::apart(s, t)]
        resolution(set, a) is Ok && resolution(set, b) is Ok && a != b && outside::declares(
            resolution(set, a)->Ok_0.schema,
            s,
        ) && outside::declares(resolution(set, b)->Ok_0.schema, t) ==> outside::apart(s, t)
}

proof fn lemma_well_named(
    set: Seq<(Seq<char>, Json)>,
    schema: Json,
    known: Seq<(Seq<char>, Json)>,
)
    requires
        well_named(set, schema),
        all_signed(set, known),
    ensures
        outside::unambiguous(outside::by_uri(known)),
        outside::one_dialect_each(schema, outside::by_uri(known)),
        forall|uri: Seq<char>|
            (#[trigger] resolution(set, uri)) is Ok ==> outside::undeclared(
                schema,
                outside::by_uri(known),
                uri,
            ),
{
    let resources = outside::by_uri(known);
    lemma_by_uri(set, known);
    assert forall|a: Seq<char>, b: Seq<char>, t: Seq<char>|
        #![trigger resources.dom().contains(a), resources.dom().contains(b), outside::names_other(
            t,
            b,
        )]
        resources.dom().contains(a) && resources.dom().contains(b) && a != b && outside::declares(
            resources[a],
            t,
        ) implies outside::names_other(t, b) by {
        assert(resolution(set, a) is Ok && resolution(set, b) is Ok);
    }
    assert forall|a: Seq<char>, b: Seq<char>, s: Seq<char>, t: Seq<char>|
        resources.dom().contains(a) && resources.dom().contains(b) && a != b
            && #[trigger] outside::declares(resources[a], s) && #[trigger] outside::declares(
            resources[b],
            t,
        ) implies outside::apart(s, t) by {
        assert(resolution(set, a) is Ok && resolution(set, b) is Ok);
    }
    assert forall|uri: Seq<char>| (#[trigger] resolution(set, uri)) is Ok implies outside::undeclared(
        schema,
        resources,
        uri,
    ) by {
        assert forall|a: Seq<char>, t: Seq<char>|
            resources.dom().contains(a) && a != uri && #[trigger] outside::declares(
                resources[a],
                t,
            ) implies outside::names_other(t, uri) by {
            assert(resolution(set, a) is Ok);
        }
    }
}

/// Whatever one order of retrieval gathers, a compiled schema has at hand.
proof fn lemma_gathered_within(
    set: Seq<(Seq<char>, Json)>,
    schema: Json,
    a: Seq<(Seq<char>, Json)>,
    b: Seq<(Seq<char>, Json)>,
)
    requires
        well_named(set, schema),
        gathered(set, schema, a),
        gathered(set, schema, b),
        outstanding(set, schema, b, b.len()) is None,
        outside::settled(schema, outside::by_uri(b)),
    ensures
        forall|uri: Seq<char>| at_hand(a, uri) ==> at_hand(b, uri),
    decreases a.len(),
{
    if a.len() > 0 {
        let before = a.drop_last();
        let uri = a.last().0;
        lemma_gathered_within(set, schema, before, b);
        lemma_gathered_parts(set, schema, before, before.len() as int);
        lemma_gathered_parts(set, schema, b, b.len() as int);
        lemma_by_uri(set, before);
        lemma_by_uri(set, b);
        lemma_none_outstanding(set, schema, b, b.len());
        if outside::plain_uri(uri) && exists|i: int|
            0 <= i < before.len() && metaschema((#[trigger] before[i]).1) == Some(uri) {
            let i = choose|i: int|
                0 <= i < before.len() && metaschema((#[trigger] before[i]).1) == Some(uri);
            assert(at_hand(before, before[i].0));
            let j = choose|j: int| 0 <= j < b.len() && (#[trigger] b[j]).0 == before[i].0;
            assert(signed_resource(set, before[i]) && signed_resource(set, b[j]));
            assert(lacking(set, b, b[j].1) is None);
        }
        if outside::missing_references(schema, outside::by_uri(before)).contains(uri) {
            let fewer = outside::by_uri(before);
            let resources = outside::by_uri(b);
            assert forall|other: Seq<char>| #[trigger] fewer.dom().contains(
                other,
            ) implies resources.dom().contains(other) && fewer[other] == resources[other] by {
                assert(at_hand(before, other));
                assert(at_hand(b, other));
                assert(resources.dom().contains(other));
            }
            assert(fewer.submap_of(resources));
            lemma_well_named(set, schema, b);
            assert(signed_resource(set, a.last()));
            assert(outside::undeclared(schema, outside::by_uri(b), uri));
            assert(outside::by_uri(b).dom().contains(uri));
        }
        assert(at_hand(b, uri));
        assert forall|other: Seq<char>| at_hand(a, other) implies at_hand(b, other) by {
            let i = choose|i: int| 0 <= i < a.len() && (#[trigger] a[i]).0 == other;
            if i < before.len() {
                assert(before[i].0 == other);
            }
        }
    }
}

proof fn lemma_repairs_noted(
    set: Seq<(Seq<char>, Json)>,
    known: Seq<(Seq<char>, Json)>,
    note: Seq<char>,
)
    requires
        all_signed(set, known),
    ensures
        repairs_for(set, known).contains(note) <==> exists|uri: Seq<char>|
            #[trigger] at_hand(known, uri) && resolution(set, uri)->Ok_0.repair == Some(note),
    decreases known.len(),
{
    if known.len() > 0 {
        let before = known.drop_last();
        let last = known.last().0;
        let earlier = repairs_for(set, before);
        let repair = resolution(set, last)->Ok_0.repair;
        assert forall|i: int| 0 <= i < before.len() implies signed_resource(
            set,
            #[trigger] before[i],
        ) by {
            assert(before[i] == known[i]);
        }
        lemma_repairs_noted(set, before, note);
        assert(signed_resource(set, known[known.len() - 1]));
        assert(known[known.len() - 1].0 == last && at_hand(known, last));
        assert forall|uri: Seq<char>| at_hand(before, uri) implies #[trigger] at_hand(
            known,
            uri,
        ) by {
            let i = choose|i: int| 0 <= i < before.len() && (#[trigger] before[i]).0 == uri;
            assert(known[i].0 == uri);
        }
        assert forall|uri: Seq<char>| #[trigger] at_hand(known, uri) implies uri == last
            || at_hand(before, uri) by {
            let i = choose|i: int| 0 <= i < known.len() && (#[trigger] known[i]).0 == uri;
            if i < before.len() {
                assert(before[i].0 == uri);
            }
        }
        let now = repairs_for(set, known);
        assert(now == noted(earlier, repair));
        if repair is Some && !earlier.contains(repair->Some_0) {
            assert(now[earlier.len() as int] == repair->Some_0);
            if earlier.contains(note) {
                let i = choose|i: int| 0 <= i < earlier.len() && earlier[i] == note;
                assert(now[i] == note);
            }
            if now.contains(note) && note != repair->Some_0 {
                let i = choose|i: int| 0 <= i < now.len() && now[i] == note;
                assert(earlier[i] == note);
            }
        }
        assert(now.contains(note) <==> earlier.contains(note) || repair == Some(note));
        if earlier.contains(note) {
            let uri = choose|uri: Seq<char>|
                #[trigger] at_hand(before, uri) && resolution(set, uri)->Ok_0.repair == Some(note);
            assert(at_hand(known, uri));
        }
    }
}

/// The schema, the signed set and the package fix what is found: whatever the
/// order in which references were met, the resources come out the same, and so
/// do the violations and the set of repairs.
pub proof fn law_findings_are_fixed(
    set: Seq<(Seq<char>, Json)>,
    schema: Json,
    package: Json,
    a: (Multiset<(Seq<char>, Seq<char>)>, Seq<Seq<char>>),
    b: (Multiset<(Seq<char>, Seq<char>)>, Seq<Seq<char>>),
)
    requires
        well_named(set, schema),
        possible(set, schema, package, Ok(a)),
        possible(set, schema, package, Ok(b)),
    ensures
        a.0 == b.0,
        a.1.to_set() == b.1.to_set(),
{
    let x = choose|known: Seq<(Seq<char>, Json)>| #[trigger]
        outcome(set, schema, package, known, Ok(a));
    let y = choose|known: Seq<(Seq<char>, Json)>| #[trigger]
        outcome(set, schema, package, known, Ok(b));
    lemma_gathered_parts(set, schema, x, x.len() as int);
    lemma_gathered_parts(set, schema, y, y.len() as int);
    lemma_by_uri(set, x);
    lemma_by_uri(set, y);
    lemma_well_named(set, schema, x);
    lemma_well_named(set, schema, y);
    lemma_gathered_within(set, schema, x, y);
    lemma_gathered_within(set, schema, y, x);
    assert forall|uri: Seq<char>|
        outside::by_uri(x).dom().contains(uri) == #[trigger] outside::by_uri(y).dom().contains(
            uri,
        ) by {
        assert(outside::by_uri(x).dom().contains(uri) <==> at_hand(x, uri));
    }
    assert(outside::by_uri(x).dom() =~= outside::by_uri(y).dom());
    assert(outside::by_uri(x) =~= outside::by_uri(y));
    let ends = outside::check_outcomes(schema, outside::by_uri(x), package);
    assert(ends.contains(Some(a.0)) && ends == set![Some(b.0)]);
    assert forall|note: Seq<char>| a.1.contains(note) <==> b.1.contains(note) by {
        lemma_repairs_noted(set, x, note);
        lemma_repairs_noted(set, y, note);
    }
    assert(a.1.to_set() =~= b.1.to_set());
}

/// Every repair is one that a resource taken from the signed set called for,
/// and names the definition that stands in for the published path.
pub proof fn law_repairs_are_called_for(
    set: Seq<(Seq<char>, Json)>,
    schema: Json,
    known: Seq<(Seq<char>, Json)>,
    note: Seq<char>,
)
    requires
        gathered(set, schema, known),
        repairs_for(set, known).contains(note),
    ensures
        exists|i: int|
            0 <= i < known.len() && called_for(schema, known.take(i), (#[trigger] known[i]).0)
                && (resolution(set, known[i].0) matches Ok(found) && found.repair == Some(note)),
{
    lemma_gathered_parts(set, schema, known, known.len() as int);
    lemma_repairs_noted(set, known, note);
    let uri = choose|uri: Seq<char>|
        #[trigger] at_hand(known, uri) && resolution(set, uri)->Ok_0.repair == Some(note);
    let i = choose|i: int| 0 <= i < known.len() && (#[trigger] known[i]).0 == uri;
    lemma_gathered_parts(set, schema, known, i + 1);
    assert(known.take(i + 1).drop_last() =~= known.take(i));
    assert(signed_resource(set, known[i]));
}

// What a report says of what was validated.

/// The digest in a report is the SHA-256 of the package's own bytes, written in
/// hex, and its size is theirs; the schema's name and digest and the label are
/// the ones given.
pub proof fn law_report_is_of_the_package_given(
    schema: Json,
    rules: Option<Json>,
    schema_name: Seq<char>,
    package: Seq<u8>,
    label: Seq<char>,
    found: Result<(Multiset<(Seq<char>, Seq<char>)>, Seq<Seq<char>>), Seq<char>>,
    r: Assessment,
)
    requires
        concluded(schema, rules, schema_name, package, label, found)
            == Ok::<Assessment, Seq<char>>(r),
    ensures
        canon::bytes_of_hex(r.package_sha256) == Ok::<Seq<u8>, Seq<char>>(outside::sha256(package)),
        package.len() <= u64::MAX ==> r.bytes == package.len(),
        r.package == label,
        r.schema == schema_name,
        canon::canonical_text(schema) is Ok,
        canon::bytes_of_hex(r.schema_sha256) == Ok::<Seq<u8>, Seq<char>>(
            outside::sha256(canon::canonical_text(schema)->Ok_0),
        ),
        found is Ok,
        r.repairs == found->Ok_0.1,
{
    canon::law_hex_round_trips(outside::sha256(package));
    canon::law_digest_is_of_the_canonical_bytes(schema);
}

/// The package's digest depends on the package alone: whatever else goes into
/// two validations, they give one package one digest, and packages with
/// different hashes different ones.
pub proof fn law_package_digest_is_its_own(
    schema: Json,
    other_schema: Json,
    rules: Option<Json>,
    other_rules: Option<Json>,
    schema_name: Seq<char>,
    other_name: Seq<char>,
    package: Seq<u8>,
    other_package: Seq<u8>,
    label: Seq<char>,
    other_label: Seq<char>,
    found: Result<(Multiset<(Seq<char>, Seq<char>)>, Seq<Seq<char>>), Seq<char>>,
    other_found: Result<(Multiset<(Seq<char>, Seq<char>)>, Seq<Seq<char>>), Seq<char>>,
)
    requires
        concluded(schema, rules, schema_name, package, label, found) is Ok,
        concluded(other_schema, other_rules, other_name, other_package, other_label, other_found)
            is Ok,
    ensures
        ({
            let a = concluded(schema, rules, schema_name, package, label, found)->Ok_0;
            let b = concluded(
                other_schema,
                other_rules,
                other_name,
                other_package,
                other_label,
                other_found,
            )->Ok_0;
            a.package_sha256 == b.package_sha256 <==> outside::sha256(package) == outside::sha256(
                other_package,
            )
        }),
{
    canon::law_hex_round_trips(outside::sha256(package));
    canon::law_hex_round_trips(outside::sha256(other_package));
}

proof fn lemma_placed_both(list: Seq<Fault>, f: Fault, g: Fault)
    ensures
        placed(list, f).contains(g) <==> g == f || list.contains(g),
    decreases list.len(),
{
    let now = placed(list, f);
    if list.len() == 0 || !fault_lt(f, list.last()) {
        assert(now[now.len() - 1] == f);
        if list.contains(g) {
            let k = choose|k: int| 0 <= k < list.len() && list[k] == g;
            assert(now[k] == g);
        }
        if now.contains(g) {
            let k = choose|k: int| 0 <= k < now.len() && now[k] == g;
            if k < list.len() {
                assert(list[k] == g);
            }
        }
    } else {
        let front = list.drop_last();
        lemma_placed_both(front, f, g);
        let inner = placed(front, f);
        assert(now == inner.push(list.last()));
        assert(now[now.len() - 1] == list.last());
        if inner.contains(g) {
            let k = choose|k: int| 0 <= k < inner.len() && inner[k] == g;
            assert(now[k] == g);
        }
        if list.contains(g) {
            let k = choose|k: int| 0 <= k < list.len() && list[k] == g;
            if k < front.len() {
                assert(front[k] == g);
            }
        }
        if front.contains(g) {
            let k = choose|k: int| 0 <= k < front.len() && front[k] == g;
            assert(list[k] == g);
        }
        if now.contains(g) {
            let k = choose|k: int| 0 <= k < now.len() && now[k] == g;
            if k < inner.len() {
                assert(inner[k] == g);
            } else {
                assert(list[list.len() - 1] == g);
            }
        }
    }
}

/// Each violation is a finding with its message, at its place or at `/` where
/// that is the whole package, and there are no other findings.
pub proof fn law_findings_are_the_violations(
    violations: Seq<(Seq<char>, Seq<char>)>,
    f: Fault,
)
    ensures
        sorted_faults(violations).contains(f) <==> exists|i: int|
            0 <= i < violations.len() && (#[trigger] violations[i]).1 == f.message && (if violations[i].0.len()
                == 0 {
                f.pointer == "/"@
            } else {
                f.pointer == violations[i].0
            }),
    decreases violations.len(),
{
    reveal_strlit("");
    if violations.len() > 0 {
        let front = violations.drop_last();
        let last = violations[violations.len() - 1];
        law_findings_are_the_violations(front, f);
        lemma_placed_both(sorted_faults(front), fault_of(last), f);
        if last.0.len() == 0 {
            assert(last.0 =~= ""@);
        }
        if sorted_faults(front).contains(f) {
            let i = choose|i: int|
                0 <= i < front.len() && (#[trigger] front[i]).1 == f.message && (if front[i].0.len()
                    == 0 {
                    f.pointer == "/"@
                } else {
                    f.pointer == front[i].0
                });
            assert(violations[i] == front[i]);
        }
        if exists|i: int|
            0 <= i < violations.len() && (#[trigger] violations[i]).1 == f.message && (if violations[i].0.len()
                == 0 {
                f.pointer == "/"@
            } else {
                f.pointer == violations[i].0
            }) {
            let i = choose|i: int|
                0 <= i < violations.len() && (#[trigger] violations[i]).1 == f.message && (if violations[i].0.len()
                    == 0 {
                    f.pointer == "/"@
                } else {
                    f.pointer == violations[i].0
                });
            if i < front.len() {
                assert(front[i] == violations[i]);
            }
        }
    }
}

/// A package is valid exactly where nothing was found in it.
pub proof fn law_valid_means_no_findings(
    schema: Json,
    rules: Option<Json>,
    schema_name: Seq<char>,
    package: Seq<u8>,
    label: Seq<char>,
    violations: Seq<(Seq<char>, Seq<char>)>,
    repairs: Seq<Seq<char>>,
    r: Assessment,
)
    requires
        assessed(schema, rules, schema_name, package, label, violations.to_multiset(), repairs)
            == Ok::<Assessment, Seq<char>>(r),
    ensures
        r.valid <==> r.findings.len() == 0,
        r.findings.len() == violations.len(),
        r.findings == sorted_faults(violations),
{
    let m = violations.to_multiset();
    violations.to_multiset_ensures();
    assert(listed(m).to_multiset() == m);
    law_findings_are_stable(violations, listed(m));
    law_findings_are_sorted(violations);
}

proof fn lemma_binding_ids(leaves: Seq<(Seq<char>, Json)>, schema_name: Seq<char>, id: Seq<char>)
    ensures
        binding_ids(leaves, schema_name).contains(id) <==> exists|i: int|
            0 <= i < leaves.len() && binds((#[trigger] leaves[i]).1, schema_name)
                && text::after_last(leaves[i].0, '/') == id,
    decreases leaves.len(),
{
    if leaves.len() > 0 {
        let front = leaves.drop_last();
        let last = leaves[leaves.len() - 1];
        lemma_binding_ids(front, schema_name, id);
        let rest = binding_ids(front, schema_name);
        let now = binding_ids(leaves, schema_name);
        if rest.contains(id) {
            let k = choose|k: int| 0 <= k < rest.len() && rest[k] == id;
            assert(now[k] == id);
            let i = choose|i: int|
                0 <= i < front.len() && binds((#[trigger] front[i]).1, schema_name)
                    && text::after_last(front[i].0, '/') == id;
            assert(leaves[i] == front[i]);
        }
        if now.contains(id) {
            let k = choose|k: int| 0 <= k < now.len() && now[k] == id;
            if k < rest.len() {
                assert(rest[k] == id);
            } else {
                assert(binds(leaves[leaves.len() - 1].1, schema_name));
            }
        }
        if exists|i: int|
            0 <= i < leaves.len() && binds((#[trigger] leaves[i]).1, schema_name)
                && text::after_last(leaves[i].0, '/') == id {
            let i = choose|i: int|
                0 <= i < leaves.len() && binds((#[trigger] leaves[i]).1, schema_name)
                    && text::after_last(leaves[i].0, '/') == id;
            if i < front.len() {
                assert(front[i] == leaves[i]);
            } else {
                assert(now[now.len() - 1] == id);
            }
        }
    }
}

/// The rules that a report names as requiring a schema are exactly those whose
/// own `schema.url` ends in the schema's name, each by the last part of its key.
pub proof fn law_requiring_rules_are_exact(rules: Json, schema_name: Seq<char>, id: Seq<char>)
    ensures
        required_by(rules, schema_name).contains(id) <==> exists|i: int|
            0 <= i < rules::flattened(rules).0.len() && text::split(
                (#[trigger] rules::flattened(rules).0[i]).0,
                '/',
            ).last() == id && (match rules::flattened(rules).0[i].1.get("schema"@) {
                Some(schema) => match schema.get("url"@) {
                    Some(Json::Text(url)) => text::split(url, '/').last() == schema_name,
                    _ => false,
                },
                None => false,
            }),
{
    let leaves = rules::flattened(rules).0;
    let ids = binding_ids(leaves, schema_name);
    diff::law_sorted_names_are_the_names(ids);
    lemma_binding_ids(leaves, schema_name, id);
    assert forall|i: int| 0 <= i < leaves.len() implies {
        &&& text::after_last((#[trigger] leaves[i]).0, '/') == text::split(leaves[i].0, '/').last()
        &&& binds(leaves[i].1, schema_name) == (match leaves[i].1.get("schema"@) {
            Some(schema) => match schema.get("url"@) {
                Some(Json::Text(url)) => text::split(url, '/').last() == schema_name,
                _ => false,
            },
            None => false,
        })
    } by {
        let leaf = leaves[i].1;
        text::law_after_last_is_the_last_piece(leaves[i].0, '/');
        let path = seq!["schema"@, "url"@];
        json::lemma_at_first(leaf, path);
        assert(path.drop_first() =~= seq!["url"@]);
        if let Some(schema) = leaf.get("schema"@) {
            let rest = seq!["url"@];
            json::lemma_at_first(schema, rest);
            if let Some(url) = schema.get("url"@) {
                assert(rest.drop_first() =~= Seq::<Seq<char>>::empty());
                assert(json::at(url, rest.drop_first()) == Some(url));
                if let Json::Text(s) = url {
                    text::law_after_last_is_the_last_piece(s, '/');
                }
            }
        }
    }
}

/// A schema that was asked for by name is the one that is used, and only a
/// signed one is; without a name, it is the last part of the package's own
/// `$schema`.
pub proof fn law_schema_name_is_the_one_asked_for(
    set: Seq<(Seq<char>, Json)>,
    requested: Option<Seq<char>>,
    package: Json,
)
    ensures
        chosen_name(set, requested, package) matches Ok(name) ==> {
            &&& table::lookup(set, name) is Some
            &&& requested matches Some(asked) ==> name == asked
            &&& requested is None ==> (package.get("$schema"@) matches Some(Json::Text(uri))
                && text::split(uri, '/').last() == name)
        },
        requested matches Some(asked) && table::lookup(set, asked) is Some ==> chosen_name(
            set,
            requested,
            package,
        ) is Ok,
        requested is None && (package.get("$schema"@) matches Some(Json::Text(uri)) && table::lookup(
            set,
            text::split(uri, '/').last(),
        ) is Some) ==> chosen_name(set, requested, package) is Ok,
{
    if let Some(Json::Text(uri)) = package.get("$schema"@) {
        text::law_after_last_is_the_last_piece(uri, '/');
    }
}

/// A reference to a signed file gives the file as signed, without a repair.
pub proof fn law_signed_file_resolves(set: Seq<(Seq<char>, Json)>, file: Seq<char>)
    requires
        !text::holds(file, "/$defs/"@),
    ensures
        table::lookup(set, file) matches Some(schema) ==> resolution(
            set,
            "https://fedramp.gov/schemas/"@ + file,
        ) == Ok::<Resolution, Seq<char>>(Resolution { schema, repair: None }),
        table::lookup(set, file) is None ==> resolution(set, "https://fedramp.gov/schemas/"@ + file)
            is Err,
{
    let base = "https://fedramp.gov/schemas/"@;
    let uri = base + file;
    assert(uri.subrange(0, base.len() as int) =~= base);
    assert(uri.skip(base.len() as int) =~= file);
    text::lemma_find_from(file, "/$defs/"@, 0);
    if text::find_from(file, "/$defs/"@, 0) is Some {
        assert(text::stands_at(file, "/$defs/"@, text::find_from(file, "/$defs/"@, 0)->0));
    }
}

/// A reference of the form that does not resolve is repaired: it gives the
/// definition it means, under the reference as its own `$id`, and a note that
/// says so. Where the file has no such definition the reference is refused.
pub proof fn law_broken_reference_is_repaired(
    set: Seq<(Seq<char>, Json)>,
    file: Seq<char>,
    pointer: Seq<char>,
    schema: Json,
)
    requires
        text::find_from(file + "/$defs/"@ + pointer, "/$defs/"@, 0) == Some(file.len() as int),
        table::lookup(set, file) == Some(schema),
    ensures
        ({
            let uri = "https://fedramp.gov/schemas/"@ + (file + "/$defs/"@ + pointer);
            let target = schema.get2("$defs"@, pointer);
            &&& resolution(set, uri) is Ok <==> target is Some
            &&& (target matches Some(Json::Object(m)) && table::ordered(m)) ==> (resolution(
                set,
                uri,
            ) matches Ok(found) && found.schema.get("$id"@) == Some(Json::Text(uri))
                && forall|other: Seq<char>|
                other != "$id"@ ==> #[trigger] found.schema.get(other) == target->0.get(other))
            &&& resolution(set, uri) matches Ok(found) ==> (found.repair matches Some(note)
                && text::begins(note, file) && text::holds(note, "/$defs/"@ + pointer))
        }),
{
    let base = "https://fedramp.gov/schemas/"@;
    let rest = file + "/$defs/"@ + pointer;
    let uri = base + rest;
    assert(uri.subrange(0, base.len() as int) =~= base);
    assert(uri.skip(base.len() as int) =~= rest);
    assert(rest.take(file.len() as int) =~= file);
    assert(rest.skip((file.len() + "/$defs/"@.len()) as int) =~= pointer);
    match schema.get2("$defs"@, pointer) {
        Some(target) => {
            if let Json::Object(m) = target {
                if table::ordered(m) {
                    json::lemma_with(target, "$id"@, Json::Text(uri));
                }
            }
            let note = repair_note(file, pointer);
            assert(note.subrange(0, file.len() as int) =~= file);
            let tail = " → "@ + file + "#/$defs/"@ + pointer;
            text::lemma_holds_within(file, "/$defs/"@ + pointer, tail);
            assert(note =~= file + ("/$defs/"@ + pointer) + tail);
        },
        None => {},
    }
}

/// The schemas are the signed bundle's `schemas` section, file by file.
pub proof fn law_schemas_are_the_signed_section(content: Seq<(Seq<char>, Json)>, name: Seq<char>)
    ensures
        signed_schemas(content) is Ok <==> (table::lookup(content, "schemas"@) matches Some(v)
            && v is Object),
        signed_schemas(content) matches Ok(set) ==> table::lookup(set, name) == table::lookup(
            content,
            "schemas"@,
        )->0.get(name),
{
}

proof fn lemma_faults_begin(out: Seq<char>, list: Seq<Fault>, i: int)
    ensures
        text::begins(fault_lines_on(out, list), out),
        0 <= i < list.len() ==> text::holds(
            fault_lines_on(out, list),
            "- `"@ + list[i].pointer + "` — "@ + list[i].message + "\n"@,
        ),
    decreases list.len(),
{
    if list.len() == 0 {
        text::lemma_begins_self(out);
    } else {
        let front = list.drop_last();
        let last = list[list.len() - 1];
        lemma_faults_begin(out, front, i);
        let before = fault_lines_on(out, front);
        let line = "- `"@ + last.pointer + "` — "@ + last.message + "\n"@;
        assert(fault_lines_on(out, list) =~= before + line);
        text::lemma_begins_more(before, line, out);
        if i == list.len() - 1 {
            text::lemma_holds_last(before, line);
        } else if 0 <= i < list.len() {
            assert(front[i] == list[i]);
            text::lemma_begins_self(before);
            text::lemma_begins_more(before, line, before);
            text::lemma_holds_begun(
                before + line,
                before,
                "- `"@ + list[i].pointer + "` — "@ + list[i].message + "\n"@,
            );
        }
    }
}

/// A report's page opens with the package and its verdict, gives each value in the row of its
/// own name, and lists every finding.
pub proof fn law_report_page_shows_the_report(r: Assessment, i: int)
    ensures
        r.valid ==> text::begins(report_text(r), "# "@ + r.package + " — VALID\n"@),
        !r.valid ==> text::begins(report_text(r), "# "@ + r.package + " — INVALID\n"@),
        text::holds(report_text(r), "| schema | `"@ + r.schema + "` |\n"@),
        text::holds(report_text(r), "| schema digest | `"@ + r.schema_sha256 + "` |\n"@),
        text::holds(report_text(r), "| package digest | `"@ + r.package_sha256 + "` |\n"@),
        text::holds(
            report_text(r),
            "| findings | "@ + text::decimal(r.findings.len()) + " |\n"@,
        ),
        r.required_by.len() > 0 ==> text::holds(
            report_text(r),
            "| required by | "@ + text::join(r.required_by, ", "@) + " |\n"@,
        ),
        0 <= i < r.findings.len() ==> text::holds(
            report_text(r),
            "- `"@ + r.findings[i].pointer + "` — "@ + r.findings[i].message + "\n"@,
        ),
        0 <= i < r.repairs.len() ==> text::holds(report_text(r), "- `"@ + r.repairs[i] + "`\n"@),
{
    reveal_strlit("VALID");
    reveal_strlit("INVALID");
    reveal_strlit(" — ");
    reveal_strlit(" — VALID\n");
    reveal_strlit(" — INVALID\n");
    reveal_strlit("\n\n| | |\n|---|---|\n| schema | `");
    reveal_strlit("| schema | `");
    reveal_strlit("` |\n| schema digest | `");
    reveal_strlit("| schema digest | `");
    reveal_strlit("` |\n| package digest | `");
    reveal_strlit("| package digest | `");
    reveal_strlit("` |\n| findings | ");
    reveal_strlit("| findings | ");
    reveal_strlit("` |\n");
    let n = text::decimal(r.findings.len());
    let top = "# "@ + r.package + " — "@ + verdict_word(r.valid) + "\n"@;
    reveal_strlit("\n");
    let row1 = "| schema | `"@ + r.schema + "` |\n"@;
    let row2 = "| schema digest | `"@ + r.schema_sha256 + "` |\n"@;
    let row3 = "| package digest | `"@ + r.package_sha256 + "` |\n"@;
    let row4 = "| findings | "@ + n + " |\n"@;
    let gap = "\n| | |\n|---|---|\n"@;
    reveal_strlit("\n| | |\n|---|---|\n");
    assert("\n\n| | |\n|---|---|\n| schema | `"@ =~= "\n"@ + gap + "| schema | `"@);
    assert("` |\n| schema digest | `"@ =~= "` |\n"@ + "| schema digest | `"@);
    assert("` |\n| package digest | `"@ =~= "` |\n"@ + "| package digest | `"@);
    assert("` |\n| findings | "@ =~= "` |\n"@ + "| findings | "@);
    let head = "# "@ + r.package + " — "@ + verdict_word(r.valid)
        + "\n\n| | |\n|---|---|\n| schema | `"@ + r.schema + "` |\n| schema digest | `"@
        + r.schema_sha256 + "` |\n| package digest | `"@ + r.package_sha256
        + "` |\n| findings | "@ + n + " |\n"@;
    assert(head =~= top + gap + row1 + row2 + row3 + row4);
    let none = Seq::<char>::empty();
    assert(head =~= top + gap + row1 + (row2 + row3 + row4));
    text::lemma_holds_within(top + gap, row1, row2 + row3 + row4);
    assert(head =~= (top + gap + row1) + row2 + (row3 + row4));
    text::lemma_holds_within(top + gap + row1, row2, row3 + row4);
    text::lemma_holds_within(top + gap + row1 + row2, row3, row4);
    text::lemma_holds_last(top + gap + row1 + row2 + row3, row4);
    assert(head =~= top + (gap + row1 + row2 + row3 + row4));
    text::lemma_begins_self(top);
    text::lemma_begins_more(top, gap + row1 + row2 + row3 + row4, top);
    let required = required_on(head, r.required_by);
    let line = "| required by | "@ + text::join(r.required_by, ", "@) + " |\n"@;
    text::lemma_begins_self(head);
    if r.required_by.len() > 0 {
        assert(required =~= head + line);
        text::lemma_begins_more(head, line, head);
        text::lemma_holds_last(head, line);
    }
    let spaced = required + "\n"@;
    text::lemma_begins_self(required);
    text::lemma_begins_more(required, "\n"@, required);
    let findings = findings_on(spaced, r.findings);
    let title = "## Findings\n\n"@;
    text::lemma_begins_self(spaced);
    if r.findings.len() > 0 {
        text::lemma_begins_more(spaced, title, spaced);
        lemma_faults_begin(spaced + title, r.findings, i);
        let lines = fault_lines_on(spaced + title, r.findings);
        text::lemma_begins_through(lines, spaced + title, spaced);
        text::lemma_begins_more(lines, "\n"@, spaced);
        text::lemma_begins_self(lines);
        text::lemma_begins_more(lines, "\n"@, lines);
    }
    let page = report_text(r);
    let intro = "## Reference repairs\n\nThe published schemas reference definitions by a path that does not resolve. Validation applied these repairs:\n\n"@;
    text::lemma_begins_self(findings);
    if r.repairs.len() > 0 {
        text::lemma_begins_more(findings, intro, findings);
        report::lemma_ids_listed(findings + intro, r.repairs, i);
        let lines = report::ids_on(findings + intro, r.repairs);
        text::lemma_begins_through(lines, findings + intro, findings);
        text::lemma_begins_more(lines, "\n"@, findings);
        text::lemma_begins_self(lines);
        text::lemma_begins_more(lines, "\n"@, lines);
        if 0 <= i < r.repairs.len() {
            text::lemma_holds_begun(page, lines, "- `"@ + r.repairs[i] + "`\n"@);
        }
    }
    assert(text::begins(page, findings));
    text::lemma_begins_through(page, findings, spaced);
    text::lemma_begins_through(page, spaced, required);
    text::lemma_begins_through(page, required, head);
    text::lemma_begins_through(page, head, top);
    assert(r.valid ==> top =~= "# "@ + r.package + " — VALID\n"@);
    assert(!r.valid ==> top =~= "# "@ + r.package + " — INVALID\n"@);
    text::lemma_holds_begun(page, head, row1);
    text::lemma_holds_begun(page, head, row2);
    text::lemma_holds_begun(page, head, row3);
    text::lemma_holds_begun(page, head, row4);
    if r.required_by.len() > 0 {
        text::lemma_holds_begun(page, required, line);
    }
    if 0 <= i < r.findings.len() {
        let lines = fault_lines_on(spaced + title, r.findings);
        text::lemma_begins_through(page, findings, lines);
        text::lemma_holds_begun(
            page,
            lines,
            "- `"@ + r.findings[i].pointer + "` — "@ + r.findings[i].message + "\n"@,
        );
    }
}

/// Every repair that resolving took is noted, and none is noted twice.
pub proof fn law_every_repair_is_noted_once(
    set: Seq<(Seq<char>, Json)>,
    known: Seq<(Seq<char>, Json)>,
    i: int,
)
    ensures
        repairs_for(set, known).no_duplicates(),
        0 <= i < known.len() ==> (resolution(set, known[i].0) matches Ok(found) ==> (found.repair
            matches Some(note) ==> repairs_for(set, known).contains(note))),
    decreases known.len(),
{
    if known.len() > 0 {
        let front = known.drop_last();
        law_every_repair_is_noted_once(set, front, i);
        let rest = repairs_for(set, front);
        let now = repairs_for(set, known);
        let last = known[known.len() - 1];
        let note = match resolution(set, last.0) {
            Ok(found) => found.repair,
            Err(_) => None,
        };
        assert(now == noted(rest, note));
        if let Some(n) = note {
            if !rest.contains(n) {
                assert(now[now.len() - 1] == n);
                assert forall|j: int, k: int|
                    0 <= j < now.len() && 0 <= k < now.len() && j != k implies now[j]
                    != now[k] by {
                    if j < rest.len() && k < rest.len() {
                        assert(rest[j] != rest[k]);
                    } else if j < rest.len() {
                        assert(rest.contains(rest[j]));
                    } else {
                        assert(rest.contains(rest[k]));
                    }
                }
            }
        }
        if 0 <= i < front.len() {
            assert(front[i] == known[i]);
            if let Ok(found) = resolution(set, known[i].0) {
                if let Some(n) = found.repair {
                    let k = choose|k: int| 0 <= k < rest.len() && rest[k] == n;
                    assert(now[k] == n);
                }
            }
        }
    }
}

} // verus!
