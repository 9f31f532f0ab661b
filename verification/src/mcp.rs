//! MCP server — agents query FedRAMP obligations and get answers that cite
//! their source.
//!
//! Every tool result carries the chain version, bundle digest, and upstream
//! commit that produced it. An agent's claim about what FedRAMP requires is
//! then checkable against a signed artifact rather than trusted because a model
//! said it. That is the whole reason this surface exists.
//!
//! Newline-delimited JSON-RPC 2.0; a line in, at most one line out.

use vstd::prelude::*;
use vstd::utf8::*;

use crate::bundle;
use crate::bundle::{Bundle, Payload, SourceRecord};
use crate::diff::kev;
use crate::diff::oscal;
use crate::diff::rules;
use crate::error::Error;
use crate::json;
use crate::json::{Doc, Json, Numeral};
use crate::obligations;
use crate::obligations::{Duty, Obligation, Party, Profile};
use crate::outside;
use crate::plan;
use crate::report;
use crate::sources;
use crate::table;
use crate::table::Table;
use crate::text;

verus! {

pub const PROTOCOL_VERSION: &'static str = "2025-03-26";

pub const SERVER_NAME: &'static str = "fedramp-aion";

pub const SERVER_VERSION: &'static str = "0.1.0";

pub const METHOD_NOT_FOUND: i64 = -32601;

pub const PARSE_ERROR: i64 = -32700;

/// The signed state the server answers from, loaded and verified once at
/// startup so every answer in a session cites the same version.
#[derive(Debug)]
pub struct Server {
    pub(crate) bundle: Bundle,
    pub(crate) chain_version: u64,
    pub(crate) file_id: u64,
    pub(crate) chain_valid: bool,
}

/// What a server answers from.
pub struct Basis {
    pub bundle: Payload,
    pub chain_version: u64,
    pub file_id: u64,
    pub chain_valid: bool,
}

impl View for Server {
    type V = Basis;

    closed spec fn view(&self) -> Basis {
        Basis {
            bundle: self.bundle@,
            chain_version: self.chain_version,
            file_id: self.file_id,
            chain_valid: self.chain_valid,
        }
    }
}

pub open spec fn answer_or(r: Result<Doc, Error>) -> Result<Json, Seq<char>> {
    match r {
        Ok(v) => Ok(v@),
        Err(e) => Err(e@),
    }
}

// Building answers.

/// The citation attached to every answer.
pub open spec fn citation(s: Basis) -> Json {
    let source = table::lookup(s.bundle.sources, sources::RULES@);
    json::no_members().with("chain_version"@, Json::PosInt(s.chain_version)).with(
        "chain_file_id"@,
        Json::Text(text::decimal(s.file_id as nat)),
    ).with("chain_verified"@, Json::Bool(s.chain_valid)).with(
        "bundle_sha256"@,
        Json::Text(plan::or_empty(bundle::bundle_digest(s.bundle))),
    ).with("upstream_version"@, Json::Text(s.bundle.upstream_version)).with(
        "rules_commit"@,
        match source {
            Some(r) => Json::Text(r.provenance.commit),
            None => Json::Null,
        },
    ).with(
        "rules_committed_at"@,
        match source {
            Some(r) => Json::Text(r.provenance.committed_at),
            None => Json::Null,
        },
    )
}

/// An obligation as a document; what it lacks is left out.
pub open spec fn duty_json(d: Duty) -> Json {
    let v = json::no_members().with("id"@, Json::Text(d.id)).with(
        "family"@,
        Json::Text(d.family),
    ).with("subset"@, Json::Text(d.subset)).with("cert_type"@, Json::Text(d.cert_type)).with(
        "force"@,
        Json::Text(d.force),
    ).with("statement"@, Json::Text(d.statement));
    let v = json::with_optional(v, "name"@, d.name);
    let v = json::with_optional(v, "class"@, d.class);
    let v = json::with_optional(v, "timeframe"@, d.timeframe);
    json::with_optional(v, "schema"@, d.schema)
}

pub open spec fn duties_json(list: Seq<Duty>) -> Seq<Json> {
    list.map_values(|d: Duty| duty_json(d))
}

pub open spec fn texts_array(list: Seq<Seq<char>>) -> Json {
    Json::Array(list.map_values(|s: Seq<char>| Json::Text(s)))
}

pub fn text_array(list: &Vec<String>) -> (v: Doc)
    ensures
        v@ == texts_array(text::texts(list@)),
{
    broadcast use json::lemma_array_json;

    let mut items: Vec<Doc> = Vec::new();
    let mut i: usize = 0;
    while i < list.len()
        invariant
            i <= list@.len(),
            items@.len() == i,
            forall|j: int| 0 <= j < i ==> (#[trigger] items@[j])@ == Json::Text(list@[j]@),
        decreases list@.len() - i,
    {
        items.push(json::text_value(list[i].as_str()));
        i += 1;
    }
    assert(json::jsons(items@) =~= text::texts(list@).map_values(|s: Seq<char>| Json::Text(s)));
    Doc::Array(items)
}

pub fn obligation_value(o: &Obligation) -> (v: Doc)
    ensures
        v@ == duty_json(o@),
{
    let mut members = bundle::empty_object();
    members.set("id", json::text_value(o.id.as_str()));
    members.set("family", json::text_value(o.family.as_str()));
    members.set("subset", json::text_value(o.subset.as_str()));
    members.set("cert_type", json::text_value(o.cert_type.as_str()));
    members.set("force", json::text_value(o.force.as_str()));
    members.set("statement", json::text_value(o.statement.as_str()));
    json::set_optional(&mut members, "name", &o.name);
    json::set_optional(&mut members, "class", &o.class);
    json::set_optional(&mut members, "timeframe", &o.timeframe);
    json::set_optional(&mut members, "schema", &o.schema);
    Doc::Object(members)
}

fn obligation_values(list: &Vec<Obligation>) -> (v: Doc)
    ensures
        v@ == Json::Array(duties_json(obligations::duties(list@))),
{
    broadcast use json::lemma_array_json;

    let mut items: Vec<Doc> = Vec::new();
    let mut i: usize = 0;
    while i < list.len()
        invariant
            i <= list@.len(),
            items@.len() == i,
            forall|j: int| 0 <= j < i ==> (#[trigger] items@[j])@ == duty_json(list@[j]@),
        decreases list@.len() - i,
    {
        items.push(obligation_value(&list[i]));
        i += 1;
    }
    assert(json::jsons(items@) =~= duties_json(obligations::duties(list@)));
    Doc::Array(items)
}

// The tools.

pub open spec fn ruleset(s: Basis) -> Result<Json, Seq<char>> {
    match table::lookup(s.bundle.content, sources::RULES@) {
        Some(rules) => Ok(rules),
        None => Err("chain payload has no rules section"@),
    }
}

/// The profile that a tool's arguments describe.
pub open spec fn party_in(arguments: Json) -> Party {
    Party {
        role: match arguments.text_at("role"@) {
            Some(role) => role,
            None => "Providers"@,
        },
        class: arguments.text_at("class"@),
        cert_type: arguments.text_at("type"@),
        path: arguments.text_at("path"@),
    }
}

/// The duties of a given force, and only binding ones where so asked.
pub open spec fn narrowed(
    duties: Seq<Duty>,
    force: Option<Seq<char>>,
    binding_only: bool,
) -> Seq<Duty>
    decreases duties.len(),
{
    if duties.len() == 0 {
        Seq::empty()
    } else {
        let rest = narrowed(duties.drop_last(), force, binding_only);
        let d = duties.last();
        let wanted = match force {
            Some(f) => text::alike(d.force, f),
            None => true,
        };
        if wanted && (!binding_only || obligations::binding_force(d.force)) {
            rest.push(d)
        } else {
            rest
        }
    }
}

pub open spec fn flag_at(arguments: Json, key: Seq<char>) -> bool {
    match arguments.get(key) {
        Some(Json::Bool(b)) => b,
        _ => false,
    }
}

pub open spec fn obligations_answer(s: Basis, arguments: Json) -> Result<Json, Seq<char>> {
    match ruleset(s) {
        Ok(rules) => {
            let party = party_in(arguments);
            let found = narrowed(
                obligations::selected(rules, party),
                arguments.text_at("force"@),
                flag_at(arguments, "binding_only"@),
            );
            Ok(
                json::no_members().with("profile"@, Json::Text(party.label_text())).with(
                    "count"@,
                    Json::PosInt(found.len() as u64),
                ).with("binding"@, Json::PosInt(report::binding_count(found) as u64)).with(
                    "obligations"@,
                    Json::Array(duties_json(found)),
                ).with("provenance"@, citation(s)),
            )
        },
        Err(e) => Err(e),
    }
}

/// The leaves of a rule id, with their paths.
pub open spec fn rule_matches(leaves: Seq<(Seq<char>, Json)>, id: Seq<char>) -> Seq<Json>
    decreases leaves.len(),
{
    if leaves.len() == 0 {
        Seq::empty()
    } else {
        let rest = rule_matches(leaves.drop_last(), id);
        let (path, leaf) = leaves.last();
        if text::after_last(path, '/') == id {
            rest.push(json::no_members().with("path"@, Json::Text(path)).with("rule"@, leaf))
        } else {
            rest
        }
    }
}

pub open spec fn rule_answer(s: Basis, arguments: Json) -> Result<Json, Seq<char>> {
    match arguments.text_at("id"@) {
        None => Err("`id` is required"@),
        Some(id) => match ruleset(s) {
            Ok(rules) => {
                let matches = rule_matches(rules::flattened(rules).0, id);
                if matches.len() == 0 {
                    Err("no rule with id `"@ + id + "`"@)
                } else {
                    Ok(
                        json::no_members().with("id"@, Json::Text(id)).with(
                            "matches"@,
                            Json::Array(matches),
                        ).with("provenance"@, citation(s)),
                    )
                }
            },
            Err(e) => Err(e),
        },
    }
}

/// FedRAMP's amendment of a control within one family.
pub open spec fn family_overlay(controls: Seq<(Seq<char>, Json)>, id: Seq<char>) -> Option<Json>
    decreases controls.len(),
{
    if controls.len() == 0 {
        None
    } else {
        match family_overlay(controls.drop_last(), id) {
            Some(v) => Some(v),
            None => if oscal::normal_id(controls.last().0) == id {
                Some(controls.last().1)
            } else {
                None
            },
        }
    }
}

/// FedRAMP's first amendment of a control.
pub open spec fn overlay(families: Seq<(Seq<char>, Json)>, id: Seq<char>) -> Option<Json>
    decreases families.len(),
{
    if families.len() == 0 {
        None
    } else {
        match overlay(families.drop_last(), id) {
            Some(v) => Some(v),
            None => family_overlay(json::members_of(Some(families.last().1)), id),
        }
    }
}

pub open spec fn control_answer(s: Basis, arguments: Json) -> Result<Json, Seq<char>> {
    match arguments.text_at("id"@) {
        None => Err("`id` is required"@),
        Some(requested) => {
            let id = oscal::normal_id(requested);
            match table::lookup(s.bundle.content, sources::OSCAL@) {
                None => Err("chain payload has no oscal section; re-sync to add it"@),
                Some(catalog) => match table::lookup(oscal::controls_of(catalog), id) {
                    None => Err("no 800-53 control `"@ + id + "`"@),
                    Some(control) => match ruleset(s) {
                        Ok(rules) => Ok(
                            json::no_members().with("id"@, Json::Text(id)).with(
                                "requested"@,
                                Json::Text(requested),
                            ).with("control"@, control).with(
                                "fedramp_overlay"@,
                                json::or_null(overlay(json::members_of(rules.get("CTL"@)), id)),
                            ).with(
                                "referenced_by_fedramp"@,
                                Json::Bool(
                                    table::lookup(oscal::references(rules), id) is Some,
                                ),
                            ).with("provenance"@, citation(s)),
                        ),
                        Err(e) => Err(e),
                    },
                },
            }
        },
    }
}

pub open spec fn governing_ids(rules: Json) -> Seq<Seq<char>> {
    crate::diff::sorted_names(
        kev::governing(rules::flattened(rules).0, kev::aliases(rules)),
    )
}

pub open spec fn kev_answer(s: Basis, arguments: Json) -> Result<Json, Seq<char>> {
    match table::lookup(s.bundle.content, sources::KEV@) {
        None => Err("chain payload has no kev section; re-sync to add it"@),
        Some(catalog) => match ruleset(s) {
            Ok(rules) => {
                let entries = kev::vulnerabilities(catalog);
                let governed_by = texts_array(governing_ids(rules));
                match arguments.text_at("cve"@) {
                    None => Ok(
                        json::no_members().with("count"@, Json::PosInt(entries.len() as u64)).with(
                            "governed_by"@,
                            governed_by,
                        ).with("provenance"@, citation(s)),
                    ),
                    Some(cve) => {
                        let id = text::ascii_upper(cve);
                        Ok(
                            json::no_members().with("cve"@, Json::Text(id)).with(
                                "known_exploited"@,
                                Json::Bool(table::lookup(entries, id) is Some),
                            ).with("entry"@, json::or_null(table::lookup(entries, id))).with(
                                "governed_by"@,
                                governed_by,
                            ).with("provenance"@, citation(s)),
                        )
                    },
                }
            },
            Err(e) => Err(e),
        },
    }
}

pub open spec fn hit(path: Seq<char>, leaf: Json) -> Json {
    json::no_members().with("path"@, Json::Text(path)).with(
        "id"@,
        Json::Text(text::after_last(path, '/')),
    ).with("name"@, json::or_null(leaf.get("name"@))).with(
        "force"@,
        json::or_null(leaf.get("force"@)),
    ).with("statement"@, json::or_null(leaf.get("statement"@)))
}

pub open spec fn with_hit(hits: Seq<Json>, path: Seq<char>, leaf: Json, query: Seq<char>) -> Seq<
    Json,
> {
    if text::holds(text::lower_text(outside::json_text(leaf)), query) {
        hits.push(hit(path, leaf))
    } else {
        hits
    }
}

/// The hits among some leaves, added to those at hand, until the limit is
/// reached.
pub open spec fn scanned(
    leaves: Seq<(Seq<char>, Json)>,
    query: Seq<char>,
    limit: nat,
    hits: Seq<Json>,
) -> Seq<Json>
    decreases leaves.len(),
{
    if leaves.len() == 0 {
        hits
    } else {
        let now = with_hit(hits, leaves[0].0, leaves[0].1, query);
        if now.len() >= limit {
            now
        } else {
            scanned(leaves.drop_first(), query, limit, now)
        }
    }
}

pub open spec fn limit_in(arguments: Json) -> u64 {
    match arguments.number_at("limit"@) {
        Some(n) => if n > 100 {
            100
        } else {
            n
        },
        None => 20,
    }
}

pub open spec fn search_answer(s: Basis, arguments: Json) -> Result<Json, Seq<char>> {
    match arguments.text_at("query"@) {
        None => Err("`query` is required"@),
        Some(wanted) => {
            let query = text::lower_text(wanted);
            if query.len() < 3 {
                Err("query must be at least 3 characters"@)
            } else {
                match ruleset(s) {
                    Ok(rules) => {
                        let limit = limit_in(arguments);
                        let hits = scanned(
                            rules::flattened(rules).0,
                            query,
                            limit as nat,
                            Seq::empty(),
                        );
                        Ok(
                            json::no_members().with("query"@, Json::Text(query)).with(
                                "count"@,
                                Json::PosInt(hits.len() as u64),
                            ).with("truncated"@, Json::Bool(hits.len() >= limit)).with(
                                "hits"@,
                                Json::Array(hits),
                            ).with("provenance"@, citation(s)),
                        )
                    },
                    Err(e) => Err(e),
                }
            }
        },
    }
}

/// What a tool answers, or why it does not.
pub open spec fn answer(s: Basis, name: Seq<char>, arguments: Json) -> Result<Json, Seq<char>> {
    if name == "fedramp_status"@ {
        Ok(citation(s))
    } else if name == "fedramp_obligations"@ {
        obligations_answer(s, arguments)
    } else if name == "fedramp_rule"@ {
        rule_answer(s, arguments)
    } else if name == "fedramp_search"@ {
        search_answer(s, arguments)
    } else if name == "fedramp_control"@ {
        control_answer(s, arguments)
    } else if name == "fedramp_kev"@ {
        kev_answer(s, arguments)
    } else {
        Err("unknown tool `"@ + name + "`"@)
    }
}

fn profile_from(arguments: &Doc) -> (p: Profile)
    ensures
        p@ == party_in(arguments@),
{
    Profile {
        role: match json::text_member(arguments, "role") {
            Some(role) => role.to_owned(),
            None => "Providers".to_owned(),
        },
        class: obligations::owned(json::text_member(arguments, "class")),
        cert_type: obligations::owned(json::text_member(arguments, "type")),
        path: obligations::owned(json::text_member(arguments, "path")),
    }
}

pub open spec fn opt_str(s: Option<&str>) -> Option<Seq<char>> {
    match s {
        Some(s) => Some(s@),
        None => None,
    }
}

/// The obligations of a given force, and only binding ones where so asked.
pub fn narrow(list: &Vec<Obligation>, force: Option<&str>, binding_only: bool) -> (out: Vec<
    Obligation,
>)
    ensures
        obligations::duties(out@) == narrowed(
            obligations::duties(list@),
            opt_str(force),
            binding_only,
        ),
        out@.len() <= list@.len(),
{
    let ghost all = obligations::duties(list@);
    let ghost wanted_force = opt_str(force);
    let mut out: Vec<Obligation> = Vec::new();
    let mut i: usize = 0;
    assert(obligations::duties(out@) =~= narrowed(all.take(0), wanted_force, binding_only));
    while i < list.len()
        invariant
            i <= list@.len(),
            out@.len() <= i,
            all == obligations::duties(list@),
            wanted_force == opt_str(force),
            obligations::duties(out@) == narrowed(all.take(i as int), wanted_force, binding_only),
        decreases list@.len() - i,
    {
        let o = &list[i];
        proof {
            assert(all.take(i + 1).drop_last() =~= all.take(i as int));
            assert(all.take(i + 1).last() == o@);
        }
        let wanted = match force {
            Some(f) => text::same_ignoring_case(o.force.as_str(), f),
            None => true,
        };
        if wanted && (!binding_only || o.is_binding()) {
            let copy = o.duplicate();
            assert(obligations::duties(out@.push(copy)) =~= obligations::duties(out@).push(copy@));
            out.push(copy);
        }
        i += 1;
    }
    assert(all.take(all.len() as int) =~= all);
    out
}

fn match_rule(leaves: &Table<Doc>, id: &str) -> (items: Vec<Doc>)
    ensures
        json::jsons(items@) == rule_matches(leaves.members(), id@),
{
    broadcast use json::lemma_members;

    let ghost all = leaves.members();
    let mut items: Vec<Doc> = Vec::new();
    let mut i: usize = 0;
    assert(json::jsons(items@) =~= rule_matches(all.take(0), id@));
    while i < leaves.len()
        invariant
            i <= leaves@.len(),
            all == leaves.members(),
            all == json::deep(leaves@),
            json::jsons(items@) == rule_matches(all.take(i as int), id@),
        decreases leaves@.len() - i,
    {
        let path = leaves.key(i);
        proof {
            assert(all.take(i + 1).drop_last() =~= all.take(i as int));
            assert(all.take(i + 1).last() == (path@, leaves@[i as int].1@));
        }
        if text::same_text(text::tail_after(path, '/').as_str(), id) {
            let mut members = bundle::empty_object();
            members.set("path", json::text_value(path));
            members.set("rule", leaves.value(i).duplicate());
            let item = Doc::Object(members);
            assert(json::jsons(items@.push(item)) =~= json::jsons(items@).push(item@));
            items.push(item);
        }
        i += 1;
    }
    assert(all.take(all.len() as int) =~= all);
    items
}

fn find_in_family<'a>(controls: &'a Table<Doc>, id: &str) -> (found: Option<&'a Doc>)
    ensures
        json::opt_json(found) == family_overlay(controls.members(), id@),
{
    broadcast use json::lemma_members;

    let ghost all = controls.members();
    let mut found: Option<&Doc> = None;
    let mut i: usize = 0;
    while i < controls.len()
        invariant
            i <= controls@.len(),
            all == controls.members(),
            all == json::deep(controls@),
            json::opt_json(found) == family_overlay(all.take(i as int), id@),
        decreases controls@.len() - i,
    {
        proof {
            assert(all.take(i + 1).drop_last() =~= all.take(i as int));
            assert(all.take(i + 1).last() == (controls@[i as int].0, controls@[i as int].1@));
        }
        if found.is_none() && text::same_text(
            oscal::normalise_id(controls.key(i)).as_str(),
            id,
        ) {
            found = Some(controls.value(i));
        }
        i += 1;
    }
    assert(all.take(all.len() as int) =~= all);
    found
}

fn find_overlay<'a>(families: &'a Table<Doc>, id: &str) -> (found: Option<&'a Doc>)
    ensures
        json::opt_json(found) == overlay(families.members(), id@),
{
    broadcast use json::lemma_members;

    let ghost all = families.members();
    let mut found: Option<&Doc> = None;
    let mut i: usize = 0;
    while i < families.len()
        invariant
            i <= families@.len(),
            all == families.members(),
            all == json::deep(families@),
            json::opt_json(found) == overlay(all.take(i as int), id@),
        decreases families@.len() - i,
    {
        proof {
            assert(all.take(i + 1).drop_last() =~= all.take(i as int));
            assert(all.take(i + 1).last() == (families@[i as int].0, families@[i as int].1@));
        }
        if found.is_none() {
            match json::members_in(Some(families.value(i))) {
                Some(controls) => {
                    found = find_in_family(controls, id);
                },
                None => {},
            }
        }
        i += 1;
    }
    assert(all.take(all.len() as int) =~= all);
    found
}

fn hit_value(path: &str, leaf: &Doc) -> (v: Doc)
    ensures
        v@ == hit(path@, leaf@),
{
    let mut members = bundle::empty_object();
    members.set("path", json::text_value(path));
    members.set("id", json::text_value(text::tail_after(path, '/').as_str()));
    members.set("name", json::value_or_null(leaf.get("name")));
    members.set("force", json::value_or_null(leaf.get("force")));
    members.set("statement", json::value_or_null(leaf.get("statement")));
    Doc::Object(members)
}

fn scan(leaves: &Table<Doc>, query: &str, limit: usize) -> (hits: Vec<Doc>)
    ensures
        json::jsons(hits@) == scanned(leaves.members(), query@, limit as nat, Seq::empty()),
{
    broadcast use json::lemma_members;

    let ghost all = leaves.members();
    let ghost goal = scanned(all, query@, limit as nat, Seq::empty());
    let mut hits: Vec<Doc> = Vec::new();
    let mut i: usize = 0;
    assert(all.skip(0) =~= all);
    assert(json::jsons(hits@) =~= Seq::<Json>::empty());
    while i < leaves.len()
        invariant
            i <= leaves@.len(),
            all == leaves.members(),
            all == json::deep(leaves@),
            goal == scanned(all, query@, limit as nat, Seq::empty()),
            scanned(all.skip(i as int), query@, limit as nat, json::jsons(hits@)) == goal,
        decreases leaves@.len() - i,
    {
        let leaf = leaves.value(i);
        proof {
            assert(all.skip(i as int)[0] == (leaves@[i as int].0, leaf@));
            assert(all.skip(i as int).drop_first() =~= all.skip(i + 1));
        }
        let haystack = outside::compact_text(leaf);
        if text::text_contains(haystack.as_str().to_lowercase().as_str(), query) {
            let item = hit_value(leaves.key(i), leaf);
            assert(json::jsons(hits@.push(item)) =~= json::jsons(hits@).push(item@));
            hits.push(item);
        }
        assert(json::jsons(hits@).len() == hits@.len());
        if hits.len() >= limit {
            return hits;
        }
        i += 1;
    }
    hits
}

impl Server {
    /// A server on a chain's payload. A chain that did not verify is refused
    /// before any request is served.
    pub fn open(bundle: Bundle, chain_version: u64, file_id: u64, chain_valid: bool) -> (r: Result<
        Server,
        Error,
    >)
        ensures
            match r {
                Ok(s) => chain_valid && s@ == (Basis {
                    bundle: bundle@,
                    chain_version,
                    file_id,
                    chain_valid,
                }),
                Err(e) => !chain_valid && e@ == "refusing to serve an invalid chain"@,
            },
    {
        if chain_valid {
            Ok(Server { bundle, chain_version, file_id, chain_valid })
        } else {
            Err(Error::new("refusing to serve an invalid chain"))
        }
    }

    fn rules(&self) -> (r: Result<&Doc, Error>)
        ensures
            match r {
                Ok(v) => ruleset(self@) == Ok::<Json, Seq<char>>(v@),
                Err(e) => ruleset(self@) == Err::<Json, Seq<char>>(e@),
            },
    {
        match self.bundle.section(sources::RULES) {
            Some(rules) => Ok(rules),
            None => Err(Error::new("chain payload has no rules section")),
        }
    }

    /// The citation attached to every answer.
    pub fn provenance(&self) -> (v: Doc)
        ensures
            v@ == citation(self@),
    {
        proof {
            table::lemma_mapped_lookup(
                self.bundle.sources@,
                sources::RULES@,
                |r: SourceRecord| r@,
            );
        }
        let (commit, committed_at) = match self.bundle.sources.get(sources::RULES) {
            Some(record) => (
                json::text_value(record.provenance.commit.as_str()),
                json::text_value(record.provenance.committed_at.as_str()),
            ),
            None => (Doc::Null, Doc::Null),
        };
        let digest = match self.bundle.digest() {
            Ok(digest) => digest,
            Err(_) => "".to_owned(),
        };
        let mut members = bundle::empty_object();
        members.set("chain_version", json::number_value(self.chain_version));
        members.set(
            "chain_file_id",
            json::text_value(text::decimal_text(self.file_id).as_str()),
        );
        members.set("chain_verified", Doc::Bool(self.chain_valid));
        members.set("bundle_sha256", json::text_value(digest.as_str()));
        members.set(
            "upstream_version",
            json::text_value(self.bundle.upstream_version.as_str()),
        );
        members.set("rules_commit", commit);
        members.set("rules_committed_at", committed_at);
        Doc::Object(members)
    }

    fn obligations(&self, arguments: &Doc) -> (r: Result<Doc, Error>)
        ensures
            answer_or(r) == obligations_answer(self@, arguments@),
    {
        let rules = match self.rules() {
            Ok(rules) => rules,
            Err(e) => {
                return Err(e);
            },
        };
        let profile = profile_from(arguments);
        let binding_only = match arguments.get("binding_only") {
            Some(Doc::Bool(b)) => *b,
            _ => false,
        };
        let all = obligations::select(rules, &profile);
        let found = narrow(&all, json::text_member(arguments, "force"), binding_only);
        let binding = report::count_binding(&found);
        assert(obligations::duties(found@).len() == found@.len());
        let mut members = bundle::empty_object();
        members.set("profile", json::text_value(profile.label().as_str()));
        members.set("count", json::number_value(found.len() as u64));
        members.set("binding", json::number_value(binding as u64));
        members.set("obligations", obligation_values(&found));
        members.set("provenance", self.provenance());
        Ok(Doc::Object(members))
    }

    fn rule(&self, arguments: &Doc) -> (r: Result<Doc, Error>)
        ensures
            answer_or(r) == rule_answer(self@, arguments@),
    {
        broadcast use json::lemma_array_json;

        let id = match json::text_member(arguments, "id") {
            Some(id) => id,
            None => {
                return Err(Error::new("`id` is required"));
            },
        };
        let rules = match self.rules() {
            Ok(rules) => rules,
            Err(e) => {
                return Err(e);
            },
        };
        let (leaves, _drift) = rules::flatten(rules);
        let found = match_rule(&leaves, id);
        assert(json::jsons(found@).len() == found@.len());
        if found.len() == 0 {
            return Err(Error::about("no rule with id `", id, "`"));
        }
        let mut members = bundle::empty_object();
        members.set("id", json::text_value(id));
        members.set("matches", Doc::Array(found));
        members.set("provenance", self.provenance());
        Ok(Doc::Object(members))
    }

    /// The 800-53 control text behind a FedRAMP reference, from the signed
    /// catalog. FedRAMP amends controls without restating them, so an agent
    /// answering from the ruleset alone is answering from half the source.
    fn control(&self, arguments: &Doc) -> (r: Result<Doc, Error>)
        ensures
            answer_or(r) == control_answer(self@, arguments@),
    {
        let requested = match json::text_member(arguments, "id") {
            Some(id) => id,
            None => {
                return Err(Error::new("`id` is required"));
            },
        };
        let id = oscal::normalise_id(requested);
        let catalog = match self.bundle.section(sources::OSCAL) {
            Some(catalog) => catalog,
            None => {
                return Err(Error::new("chain payload has no oscal section; re-sync to add it"));
            },
        };
        let controls = oscal::flatten(catalog);
        let control = match controls.member(id.as_str()) {
            Some(control) => control,
            None => {
                return Err(Error::about("no 800-53 control `", id.as_str(), "`"));
            },
        };
        let rules = match self.rules() {
            Ok(rules) => rules,
            Err(e) => {
                return Err(e);
            },
        };
        let amended = match json::members_in(rules.get("CTL")) {
            Some(families) => find_overlay(families, id.as_str()),
            None => None,
        };
        let referenced = oscal::referenced_controls(rules).contains_key(id.as_str());
        let mut members = bundle::empty_object();
        members.set("id", json::text_value(id.as_str()));
        members.set("requested", json::text_value(requested));
        members.set("control", control.duplicate());
        members.set("fedramp_overlay", json::value_or_null(amended));
        members.set("referenced_by_fedramp", Doc::Bool(referenced));
        members.set("provenance", self.provenance());
        Ok(Doc::Object(members))
    }

    /// Whether a CVE is known-exploited, and which FedRAMP rules govern the
    /// response. FedRAMP defines the term but never carries the list.
    fn kev(&self, arguments: &Doc) -> (r: Result<Doc, Error>)
        ensures
            answer_or(r) == kev_answer(self@, arguments@),
    {
        let catalog = match self.bundle.section(sources::KEV) {
            Some(catalog) => catalog,
            None => {
                return Err(Error::new("chain payload has no kev section; re-sync to add it"));
            },
        };
        let rules = match self.rules() {
            Ok(rules) => rules,
            Err(e) => {
                return Err(e);
            },
        };
        let entries = kev::flatten(catalog);
        let governed_by = text_array(&kev::governing_rules(rules));
        let mut members = bundle::empty_object();
        match json::text_member(arguments, "cve") {
            None => {
                proof {
                    json::lemma_members(entries);
                }
                members.set("count", json::number_value(entries.len() as u64));
                members.set("governed_by", governed_by);
            },
            Some(cve) => {
                let id = text::to_ascii_upper(cve);
                let entry = entries.member(id.as_str());
                members.set("cve", json::text_value(id.as_str()));
                members.set("known_exploited", Doc::Bool(entry.is_some()));
                members.set("entry", json::value_or_null(entry));
                members.set("governed_by", governed_by);
            },
        }
        members.set("provenance", self.provenance());
        Ok(Doc::Object(members))
    }

    fn search(&self, arguments: &Doc) -> (r: Result<Doc, Error>)
        ensures
            answer_or(r) == search_answer(self@, arguments@),
    {
        broadcast use json::lemma_array_json;

        let query = match json::text_member(arguments, "query") {
            Some(query) => query.to_lowercase(),
            None => {
                return Err(Error::new("`query` is required"));
            },
        };
        if text::chars_of(query.as_str()).len() < 3 {
            return Err(Error::new("query must be at least 3 characters"));
        }
        let limit: u64 = match json::number_member(arguments, "limit") {
            Some(n) => if n > 100 {
                100
            } else {
                n
            },
            None => 20,
        };
        let rules = match self.rules() {
            Ok(rules) => rules,
            Err(e) => {
                return Err(e);
            },
        };
        let (leaves, _drift) = rules::flatten(rules);
        let hits = scan(&leaves, query.as_str(), limit as usize);
        assert(json::jsons(hits@).len() == hits@.len());
        let mut members = bundle::empty_object();
        members.set("query", json::text_value(query.as_str()));
        members.set("count", json::number_value(hits.len() as u64));
        members.set("truncated", Doc::Bool(hits.len() as u64 >= limit));
        members.set("hits", Doc::Array(hits));
        members.set("provenance", self.provenance());
        Ok(Doc::Object(members))
    }

    /// Calls a tool.
    pub fn call(&self, name: &str, arguments: &Doc) -> (r: Result<Doc, Error>)
        ensures
            answer_or(r) == answer(self@, name@, arguments@),
    {
        if text::same_text(name, "fedramp_status") {
            Ok(self.provenance())
        } else if text::same_text(name, "fedramp_obligations") {
            self.obligations(arguments)
        } else if text::same_text(name, "fedramp_rule") {
            self.rule(arguments)
        } else if text::same_text(name, "fedramp_search") {
            self.search(arguments)
        } else if text::same_text(name, "fedramp_control") {
            self.control(arguments)
        } else if text::same_text(name, "fedramp_kev") {
            self.kev(arguments)
        } else {
            Err(Error::about("unknown tool `", name, "`"))
        }
    }
}

// The tool list.

/// A parameter of a tool.
pub open spec fn parameter(kind: Seq<char>, description: Option<Seq<char>>) -> Json {
    json::with_optional(
        json::no_members().with("type"@, Json::Text(kind)),
        "description"@,
        description,
    )
}

/// A tool: what it is called, what it does, what it takes and what it needs.
pub open spec fn tool(
    name: Seq<char>,
    description: Seq<char>,
    properties: Json,
    required: Option<Seq<char>>,
) -> Json {
    let schema = json::no_members().with("type"@, Json::Text("object"@)).with(
        "properties"@,
        properties,
    );
    json::no_members().with("name"@, Json::Text(name)).with(
        "description"@,
        Json::Text(description),
    ).with(
        "inputSchema"@,
        match required {
            Some(r) => schema.with("required"@, Json::Array(seq![Json::Text(r)])),
            None => schema,
        },
    )
}

pub open spec fn status_tool() -> Json {
    tool(
        "fedramp_status"@,
        "Which signed FedRAMP ruleset this server answers from: chain version, bundle digest, upstream commit, and whether the chain verified."@,
        json::no_members(),
        None,
    )
}

pub open spec fn obligations_tool() -> Json {
    tool(
        "fedramp_obligations"@,
        "FedRAMP rules that apply to a given profile, with the class-specific variant resolved. Returns the obligation list plus the chain version it came from."@,
        json::no_members().with("role"@, parameter("string"@, Some("Providers, Agencies, Assessors, Advisors, FedRAMP. Default Providers."@))).with("class"@, parameter("string"@, Some("Certification class A, B, C, or D."@))).with("type"@, parameter("string"@, Some("Certification type: 20x or Rev5."@))).with("path"@, parameter("string"@, Some("Authorization path: Program or Agency."@))).with("force"@, parameter("string"@, Some("Filter to one force, e.g. MUST."@))).with("binding_only"@, parameter("boolean"@, Some("Only MUST / MUST NOT."@))),
        None,
    )
}

pub open spec fn rule_tool() -> Json {
    tool(
        "fedramp_rule"@,
        "One rule by its FedRAMP id, e.g. CCM-OCR-AVL or KSI-CED-RAT."@,
        json::no_members().with("id"@, parameter("string"@, None)),
        Some("id"@),
    )
}

pub open spec fn control_tool() -> Json {
    tool(
        "fedramp_control"@,
        "The NIST 800-53 control text behind a FedRAMP reference, from the signed catalog, plus any FedRAMP overlay (parameters or guidance) for it. Accepts either id form: AC-06-01 or ac-6.1."@,
        json::no_members().with("id"@, parameter("string"@, None)),
        Some("id"@),
    )
}

pub open spec fn kev_tool() -> Json {
    tool(
        "fedramp_kev"@,
        "Whether a CVE is in CISA's Known Exploited Vulnerabilities catalog, with its due date and required action, plus the FedRAMP rules that govern the response. Omit `cve` for a catalog summary."@,
        json::no_members().with("cve"@, parameter("string"@, Some("e.g. CVE-2026-20316"@))),
        None,
    )
}

pub open spec fn search_tool() -> Json {
    tool(
        "fedramp_search"@,
        "Full-text search across the signed ruleset. Returns matching rule ids and statements, so an answer can cite rules rather than paraphrase."@,
        json::no_members().with("query"@, parameter("string"@, None)).with("limit"@, parameter("integer"@, Some("Default 20, max 100."@))),
        Some("query"@),
    )
}

pub open spec fn tools() -> Seq<Json> {
    seq![
        status_tool(),
        obligations_tool(),
        rule_tool(),
        control_tool(),
        kev_tool(),
        search_tool(),
    ]
}

fn parameter_value(kind: &str, description: Option<&str>) -> (v: Doc)
    ensures
        v@ == parameter(kind@, opt_str(description)),
{
    let mut members = bundle::empty_object();
    members.set("type", json::text_value(kind));
    match description {
        Some(d) => {
            members.set("description", json::text_value(d));
        },
        None => {},
    }
    Doc::Object(members)
}

fn tool_value(name: &str, description: &str, properties: Table<Doc>, required: Option<&str>) -> (v: Doc)
    ensures
        v@ == tool(
            name@,
            description@,
            Json::Object(properties.members()),
            opt_str(required),
        ),
{
    broadcast use json::lemma_array_json;

    let mut schema = bundle::empty_object();
    schema.set("type", json::text_value("object"));
    schema.set("properties", Doc::Object(properties));
    match required {
        Some(r) => {
            let list = vec![json::text_value(r)];
            assert(json::jsons(list@) =~= seq![Json::Text(r@)]);
            schema.set("required", Doc::Array(list));
        },
        None => {},
    }
    let mut members = bundle::empty_object();
    members.set("name", json::text_value(name));
    members.set("description", json::text_value(description));
    members.set("inputSchema", Doc::Object(schema));
    Doc::Object(members)
}

fn status_definition() -> (v: Doc)
    ensures
        v@ == status_tool(),
{
    let properties = bundle::empty_object();
    tool_value(
        "fedramp_status",
        "Which signed FedRAMP ruleset this server answers from: chain version, bundle digest, upstream commit, and whether the chain verified.",
        properties,
        None,
    )
}

fn obligations_definition() -> (v: Doc)
    ensures
        v@ == obligations_tool(),
{
    let mut properties = bundle::empty_object();
    properties.set("role", parameter_value("string", Some("Providers, Agencies, Assessors, Advisors, FedRAMP. Default Providers.")));
    properties.set("class", parameter_value("string", Some("Certification class A, B, C, or D.")));
    properties.set("type", parameter_value("string", Some("Certification type: 20x or Rev5.")));
    properties.set("path", parameter_value("string", Some("Authorization path: Program or Agency.")));
    properties.set("force", parameter_value("string", Some("Filter to one force, e.g. MUST.")));
    properties.set("binding_only", parameter_value("boolean", Some("Only MUST / MUST NOT.")));
    tool_value(
        "fedramp_obligations",
        "FedRAMP rules that apply to a given profile, with the class-specific variant resolved. Returns the obligation list plus the chain version it came from.",
        properties,
        None,
    )
}

fn rule_definition() -> (v: Doc)
    ensures
        v@ == rule_tool(),
{
    let mut properties = bundle::empty_object();
    properties.set("id", parameter_value("string", None));
    tool_value(
        "fedramp_rule",
        "One rule by its FedRAMP id, e.g. CCM-OCR-AVL or KSI-CED-RAT.",
        properties,
        Some("id"),
    )
}

fn control_definition() -> (v: Doc)
    ensures
        v@ == control_tool(),
{
    let mut properties = bundle::empty_object();
    properties.set("id", parameter_value("string", None));
    tool_value(
        "fedramp_control",
        "The NIST 800-53 control text behind a FedRAMP reference, from the signed catalog, plus any FedRAMP overlay (parameters or guidance) for it. Accepts either id form: AC-06-01 or ac-6.1.",
        properties,
        Some("id"),
    )
}

fn kev_definition() -> (v: Doc)
    ensures
        v@ == kev_tool(),
{
    let mut properties = bundle::empty_object();
    properties.set("cve", parameter_value("string", Some("e.g. CVE-2026-20316")));
    tool_value(
        "fedramp_kev",
        "Whether a CVE is in CISA's Known Exploited Vulnerabilities catalog, with its due date and required action, plus the FedRAMP rules that govern the response. Omit `cve` for a catalog summary.",
        properties,
        None,
    )
}

fn search_definition() -> (v: Doc)
    ensures
        v@ == search_tool(),
{
    let mut properties = bundle::empty_object();
    properties.set("query", parameter_value("string", None));
    properties.set("limit", parameter_value("integer", Some("Default 20, max 100.")));
    tool_value(
        "fedramp_search",
        "Full-text search across the signed ruleset. Returns matching rule ids and statements, so an answer can cite rules rather than paraphrase.",
        properties,
        Some("query"),
    )
}

pub fn tool_definitions() -> (v: Doc)
    ensures
        v@ == Json::Array(tools()),
{
    broadcast use json::lemma_array_json;

    let list = vec![
        status_definition(),
        obligations_definition(),
        rule_definition(),
        control_definition(),
        kev_definition(),
        search_definition(),
    ];
    assert(json::jsons(list@) =~= tools());
    Doc::Array(list)
}

// Requests and responses.

pub open spec fn succeeded(id: Json, result: Json) -> Json {
    json::no_members().with("jsonrpc"@, Json::Text("2.0"@)).with("id"@, id).with(
        "result"@,
        result,
    )
}

pub open spec fn failed(id: Json, code: Json, message: Seq<char>) -> Json {
    json::no_members().with("jsonrpc"@, Json::Text("2.0"@)).with("id"@, id).with(
        "error"@,
        json::no_members().with("code"@, code).with("message"@, Json::Text(message)),
    )
}

/// A tool's outcome as the protocol frames it: one text, and whether it is an
/// error.
pub open spec fn framed(content: Seq<char>, is_error: bool) -> Json {
    json::no_members().with(
        "content"@,
        Json::Array(
            seq![
                json::no_members().with("type"@, Json::Text("text"@)).with(
                    "text"@,
                    Json::Text(content),
                ),
            ],
        ),
    ).with("isError"@, Json::Bool(is_error))
}

pub open spec fn outcome(r: Result<Json, Seq<char>>) -> Json {
    match r {
        Ok(v) => framed(outside::json_pretty(v), false),
        Err(e) => framed(e, true),
    }
}

pub open spec fn welcome(params: Json) -> Json {
    json::no_members().with(
        "protocolVersion"@,
        Json::Text(
            match params.text_at("protocolVersion"@) {
                Some(version) => version,
                None => PROTOCOL_VERSION@,
            },
        ),
    ).with("capabilities"@, json::no_members().with("tools"@, json::no_members())).with(
        "serverInfo"@,
        json::no_members().with("name"@, Json::Text(SERVER_NAME@)).with(
            "version"@,
            Json::Text(SERVER_VERSION@),
        ),
    )
}

pub open spec fn or_empty_object(v: Option<Json>) -> Json {
    match v {
        Some(v) => v,
        None => json::no_members(),
    }
}

pub open spec fn text_or_empty(s: Option<Seq<char>>) -> Seq<char> {
    match s {
        Some(s) => s,
        None => ""@,
    }
}

/// The response to a request with an id.
pub open spec fn reply(s: Basis, id: Json, request: Json) -> Json {
    let method = text_or_empty(request.text_at("method"@));
    let params = or_empty_object(request.get("params"@));
    if method == "initialize"@ {
        succeeded(id, welcome(params))
    } else if method == "ping"@ {
        succeeded(id, json::no_members())
    } else if method == "tools/list"@ {
        succeeded(id, json::no_members().with("tools"@, Json::Array(tools())))
    } else if method == "tools/call"@ {
        succeeded(
            id,
            outcome(
                answer(
                    s,
                    text_or_empty(params.text_at("name"@)),
                    or_empty_object(params.get("arguments"@)),
                ),
            ),
        )
    } else {
        failed(id, Json::NegInt(METHOD_NOT_FOUND), "unknown method `"@ + method + "`"@)
    }
}

/// The response to a request. Notifications carry no id and are not answered.
pub open spec fn response(s: Basis, request: Json) -> Option<Json> {
    match request.get("id"@) {
        Some(id) => Some(reply(s, id, request)),
        None => None,
    }
}

/// The line that answers a line, if any does. An empty line is passed over,
/// and one that is not JSON is told so.
pub open spec fn line_response(s: Basis, line: Seq<char>) -> Option<Seq<char>> {
    if text::words(line).len() == 0 {
        None
    } else {
        match outside::json_parse(encode_utf8(line)) {
            Ok(request) => match response(s, request) {
                Some(v) => Some(outside::json_text(v)),
                None => None,
            },
            Err(e) => Some(
                outside::json_text(failed(Json::Null, Json::NegInt(PARSE_ERROR), "parse error: "@ + e)),
            ),
        }
    }
}

fn success(id: &Doc, result: Doc) -> (v: Doc)
    ensures
        v@ == succeeded(id@, result@),
{
    let mut members = bundle::empty_object();
    members.set("jsonrpc", json::text_value("2.0"));
    members.set("id", id.duplicate());
    members.set("result", result);
    Doc::Object(members)
}

fn error(id: &Doc, code: i64, message: &str) -> (v: Doc)
    ensures
        v@ == failed(id@, Json::NegInt(code), message@),
{
    let mut detail = bundle::empty_object();
    detail.set("code", Doc::Number(Numeral::NegInt(code)));
    detail.set("message", json::text_value(message));
    let mut members = bundle::empty_object();
    members.set("jsonrpc", json::text_value("2.0"));
    members.set("id", id.duplicate());
    members.set("error", Doc::Object(detail));
    Doc::Object(members)
}

fn frame(content: &str, is_error: bool) -> (v: Doc)
    ensures
        v@ == framed(content@, is_error),
{
    broadcast use json::lemma_array_json;

    let mut item = bundle::empty_object();
    item.set("type", json::text_value("text"));
    item.set("text", json::text_value(content));
    let list = vec![Doc::Object(item)];
    assert(json::jsons(list@) =~= seq![list@[0]@]);
    let mut members = bundle::empty_object();
    members.set("content", Doc::Array(list));
    members.set("isError", Doc::Bool(is_error));
    Doc::Object(members)
}

fn tool_result(value: &Doc) -> (v: Doc)
    ensures
        v@ == framed(outside::json_pretty(value@), false),
{
    frame(outside::pretty_text(value).as_str(), false)
}

fn tool_error(message: &str) -> (v: Doc)
    ensures
        v@ == framed(message@, true),
{
    frame(message, true)
}

fn greet(params: &Doc) -> (v: Doc)
    ensures
        v@ == welcome(params@),
{
    let version = match json::text_member(params, "protocolVersion") {
        Some(version) => version,
        None => PROTOCOL_VERSION,
    };
    let mut capabilities = bundle::empty_object();
    capabilities.set("tools", Doc::Object(bundle::empty_object()));
    let mut info = bundle::empty_object();
    info.set("name", json::text_value(SERVER_NAME));
    info.set("version", json::text_value(SERVER_VERSION));
    let mut members = bundle::empty_object();
    members.set("protocolVersion", json::text_value(version));
    members.set("capabilities", Doc::Object(capabilities));
    members.set("serverInfo", Doc::Object(info));
    Doc::Object(members)
}

fn value_or_object(v: Option<&Doc>) -> (d: Doc)
    ensures
        d@ == or_empty_object(json::opt_json(v)),
{
    match v {
        Some(v) => v.duplicate(),
        None => Doc::Object(bundle::empty_object()),
    }
}

pub open spec fn opt_doc(v: Option<Doc>) -> Option<Json> {
    match v {
        Some(v) => Some(v@),
        None => None,
    }
}

impl Server {
    /// Answers a request, unless it is a notification.
    pub fn handle(&self, request: &Doc) -> (r: Option<Doc>)
        ensures
            opt_doc(r) == response(self@, request@),
    {
        let id = match request.get("id") {
            Some(id) => id,
            None => {
                return None;
            },
        };
        let method = match json::text_member(request, "method") {
            Some(method) => method,
            None => "",
        };
        let params = value_or_object(request.get("params"));
        if text::same_text(method, "initialize") {
            Some(success(id, greet(&params)))
        } else if text::same_text(method, "ping") {
            Some(success(id, Doc::Object(bundle::empty_object())))
        } else if text::same_text(method, "tools/list") {
            let mut members = bundle::empty_object();
            members.set("tools", tool_definitions());
            Some(success(id, Doc::Object(members)))
        } else if text::same_text(method, "tools/call") {
            let name = match json::text_member(&params, "name") {
                Some(name) => name,
                None => "",
            };
            let arguments = value_or_object(params.get("arguments"));
            match self.call(name, &arguments) {
                Ok(value) => Some(success(id, tool_result(&value))),
                Err(e) => Some(success(id, tool_error(e.message.as_str()))),
            }
        } else {
            let mut message = "unknown method `".to_owned();
            message.push_str(method);
            message.push_str("`");
            Some(error(id, METHOD_NOT_FOUND, message.as_str()))
        }
    }

    /// Answers a line of input with a line of output, if it is to be answered.
    pub fn handle_line(&self, line: &str) -> (r: Option<String>)
        ensures
            text::opt_text(r) == line_response(self@, line@),
    {
        let parts = text::split_words(line);
        assert(parts@.len() == text::texts(parts@).len());
        if parts.len() == 0 {
            return None;
        }
        match outside::parse_json(line.as_bytes()) {
            Ok(request) => match self.handle(&request) {
                Some(v) => Some(outside::compact_text(&v)),
                None => None,
            },
            Err(e) => {
                let mut message = "parse error: ".to_owned();
                message.push_str(e.as_str());
                Some(outside::compact_text(&error(&Doc::Null, PARSE_ERROR, message.as_str())))
            },
        }
    }
}

// Laws.

/// Every answer cites what it was given from: `fedramp_status` is the
/// citation, and every other tool's answer holds it.
pub proof fn law_every_answer_cites_its_source(s: Basis, name: Seq<char>, arguments: Json)
    requires
        answer(s, name, arguments) is Ok,
    ensures
        name == "fedramp_status"@ ==> answer(s, name, arguments)->Ok_0 == citation(s),
        name != "fedramp_status"@ ==> answer(s, name, arguments)->Ok_0.get("provenance"@) == Some(
            citation(s),
        ),
{
    let v = answer(s, name, arguments)->Ok_0;
    if name == "fedramp_status"@ {
    } else if name == "fedramp_obligations"@ {
        let party = party_in(arguments);
        let found = narrowed(
            obligations::selected(ruleset(s)->Ok_0, party),
            arguments.text_at("force"@),
            flag_at(arguments, "binding_only"@),
        );
        let v1 = json::no_members().with("profile"@, Json::Text(party.label_text()));
        let v2 = v1.with("count"@, Json::PosInt(found.len() as u64));
        let v3 = v2.with("binding"@, Json::PosInt(report::binding_count(found) as u64));
        let v4 = v3.with("obligations"@, Json::Array(duties_json(found)));
        json::lemma_with(json::no_members(), "profile"@, Json::Text(party.label_text()));
        json::lemma_with(v1, "count"@, Json::PosInt(found.len() as u64));
        json::lemma_with(v2, "binding"@, Json::PosInt(report::binding_count(found) as u64));
        json::lemma_with(v3, "obligations"@, Json::Array(duties_json(found)));
        json::lemma_with(v4, "provenance"@, citation(s));
    } else if name == "fedramp_rule"@ {
        let id = arguments.text_at("id"@)->Some_0;
        let matches = rule_matches(rules::flattened(ruleset(s)->Ok_0).0, id);
        let v1 = json::no_members().with("id"@, Json::Text(id));
        let v2 = v1.with("matches"@, Json::Array(matches));
        json::lemma_with(json::no_members(), "id"@, Json::Text(id));
        json::lemma_with(v1, "matches"@, Json::Array(matches));
        json::lemma_with(v2, "provenance"@, citation(s));
    } else if name == "fedramp_search"@ {
        let query = text::lower_text(arguments.text_at("query"@)->Some_0);
        let limit = limit_in(arguments);
        let hits = scanned(
            rules::flattened(ruleset(s)->Ok_0).0,
            query,
            limit as nat,
            Seq::empty(),
        );
        let v1 = json::no_members().with("query"@, Json::Text(query));
        let v2 = v1.with("count"@, Json::PosInt(hits.len() as u64));
        let v3 = v2.with("truncated"@, Json::Bool(hits.len() >= limit));
        let v4 = v3.with("hits"@, Json::Array(hits));
        json::lemma_with(json::no_members(), "query"@, Json::Text(query));
        json::lemma_with(v1, "count"@, Json::PosInt(hits.len() as u64));
        json::lemma_with(v2, "truncated"@, Json::Bool(hits.len() >= limit));
        json::lemma_with(v3, "hits"@, Json::Array(hits));
        json::lemma_with(v4, "provenance"@, citation(s));
    } else if name == "fedramp_control"@ {
        let requested = arguments.text_at("id"@)->Some_0;
        let id = oscal::normal_id(requested);
        let catalog = table::lookup(s.bundle.content, sources::OSCAL@)->Some_0;
        let control = table::lookup(oscal::controls_of(catalog), id)->Some_0;
        let rules = ruleset(s)->Ok_0;
        let amended = json::or_null(overlay(json::members_of(rules.get("CTL"@)), id));
        let referenced = Json::Bool(table::lookup(oscal::references(rules), id) is Some);
        let v1 = json::no_members().with("id"@, Json::Text(id));
        let v2 = v1.with("requested"@, Json::Text(requested));
        let v3 = v2.with("control"@, control);
        let v4 = v3.with("fedramp_overlay"@, amended);
        let v5 = v4.with("referenced_by_fedramp"@, referenced);
        json::lemma_with(json::no_members(), "id"@, Json::Text(id));
        json::lemma_with(v1, "requested"@, Json::Text(requested));
        json::lemma_with(v2, "control"@, control);
        json::lemma_with(v3, "fedramp_overlay"@, amended);
        json::lemma_with(v4, "referenced_by_fedramp"@, referenced);
        json::lemma_with(v5, "provenance"@, citation(s));
    } else {
        let catalog = table::lookup(s.bundle.content, sources::KEV@)->Some_0;
        let entries = kev::vulnerabilities(catalog);
        let governed_by = texts_array(governing_ids(ruleset(s)->Ok_0));
        match arguments.text_at("cve"@) {
            None => {
                let v1 = json::no_members().with("count"@, Json::PosInt(entries.len() as u64));
                let v2 = v1.with("governed_by"@, governed_by);
                json::lemma_with(json::no_members(), "count"@, Json::PosInt(entries.len() as u64));
                json::lemma_with(v1, "governed_by"@, governed_by);
                json::lemma_with(v2, "provenance"@, citation(s));
            },
            Some(cve) => {
                let id = text::ascii_upper(cve);
                let known = Json::Bool(table::lookup(entries, id) is Some);
                let entry = json::or_null(table::lookup(entries, id));
                let v1 = json::no_members().with("cve"@, Json::Text(id));
                let v2 = v1.with("known_exploited"@, known);
                let v3 = v2.with("entry"@, entry);
                let v4 = v3.with("governed_by"@, governed_by);
                json::lemma_with(json::no_members(), "cve"@, Json::Text(id));
                json::lemma_with(v1, "known_exploited"@, known);
                json::lemma_with(v2, "entry"@, entry);
                json::lemma_with(v3, "governed_by"@, governed_by);
                json::lemma_with(v4, "provenance"@, citation(s));
            },
        }
    }
}

proof fn lemma_no_matches(leaves: Seq<(Seq<char>, Json)>, id: Seq<char>)
    requires
        forall|i: int|
            0 <= i < leaves.len() ==> text::after_last((#[trigger] leaves[i]).0, '/') != id,
    ensures
        rule_matches(leaves, id).len() == 0,
    decreases leaves.len(),
{
    if leaves.len() > 0 {
        assert(leaves.last() == leaves[leaves.len() - 1]);
        assert forall|i: int| 0 <= i < leaves.drop_last().len() implies text::after_last(
            (#[trigger] leaves.drop_last()[i]).0,
            '/',
        ) != id by {
            assert(leaves.drop_last()[i] == leaves[i]);
        }
        lemma_no_matches(leaves.drop_last(), id);
    }
}

/// A rule that the signed ruleset lacks is an error, never an empty answer.
pub proof fn law_missing_rule_is_an_error(s: Basis, arguments: Json, id: Seq<char>, rules: Json)
    requires
        arguments.text_at("id"@) == Some(id),
        ruleset(s) == Ok::<Json, Seq<char>>(rules),
        forall|i: int|
            0 <= i < rules::flattened(rules).0.len() ==> text::after_last(
                (#[trigger] rules::flattened(rules).0[i]).0,
                '/',
            ) != id,
    ensures
        outcome(rule_answer(s, arguments)) == framed("no rule with id `"@ + id + "`"@, true),
{
    lemma_no_matches(rules::flattened(rules).0, id);
}

/// A request is answered if and only if it has an id, and the response names
/// that id.
pub proof fn law_response_names_its_request(s: Basis, request: Json)
    ensures
        response(s, request) is Some <==> request.get("id"@) is Some,
        response(s, request) matches Some(v) ==> v.get("id"@) == request.get("id"@) && v.get(
            "jsonrpc"@,
        ) == Some(Json::Text("2.0"@)),
{
    reveal_strlit("jsonrpc");
    reveal_strlit("id");
    reveal_strlit("result");
    reveal_strlit("error");
    if request.get("id"@) is Some {
        let id = request.get("id"@)->Some_0;
        let v = reply(s, id, request);
        let v0 = json::no_members();
        let v1 = v0.with("jsonrpc"@, Json::Text("2.0"@));
        let v2 = v1.with("id"@, id);
        json::lemma_with(v0, "jsonrpc"@, Json::Text("2.0"@));
        json::lemma_with(v1, "id"@, id);
        assert forall|r: Json| (#[trigger] v2.with("result"@, r)).get("id"@) == Some(id) && v2.with(
            "result"@,
            r,
        ).get("jsonrpc"@) == Some(Json::Text("2.0"@)) by {
            json::lemma_with(v2, "result"@, r);
        }
        assert forall|r: Json| (#[trigger] v2.with("error"@, r)).get("id"@) == Some(id) && v2.with(
            "error"@,
            r,
        ).get("jsonrpc"@) == Some(Json::Text("2.0"@)) by {
            json::lemma_with(v2, "error"@, r);
        }
    }
}

/// A search stops at its limit, which is never above a hundred.
pub proof fn law_search_is_bounded(
    leaves: Seq<(Seq<char>, Json)>,
    query: Seq<char>,
    arguments: Json,
    hits: Seq<Json>,
)
    requires
        hits.len() < limit_in(arguments) || hits.len() == 0,
    ensures
        limit_in(arguments) <= 100,
        scanned(leaves, query, limit_in(arguments) as nat, hits).len() <= if limit_in(arguments)
            == 0 {
            1
        } else {
            limit_in(arguments) as int
        },
    decreases leaves.len(),
{
    let limit = limit_in(arguments) as nat;
    if leaves.len() > 0 {
        let now = with_hit(hits, leaves[0].0, leaves[0].1, query);
        if now.len() < limit {
            law_search_is_bounded(leaves.drop_first(), query, arguments, now);
        }
    }
}

// What an answer says.

proof fn lemma_citation_keys()
    ensures
        "chain_version"@ != "chain_file_id"@,
        "chain_version"@ != "chain_verified"@,
        "chain_version"@ != "bundle_sha256"@,
        "chain_version"@ != "upstream_version"@,
        "chain_version"@ != "rules_commit"@,
        "chain_version"@ != "rules_committed_at"@,
        "chain_file_id"@ != "chain_verified"@,
        "chain_file_id"@ != "bundle_sha256"@,
        "chain_file_id"@ != "upstream_version"@,
        "chain_file_id"@ != "rules_commit"@,
        "chain_file_id"@ != "rules_committed_at"@,
        "chain_verified"@ != "bundle_sha256"@,
        "chain_verified"@ != "upstream_version"@,
        "chain_verified"@ != "rules_commit"@,
        "chain_verified"@ != "rules_committed_at"@,
        "bundle_sha256"@ != "upstream_version"@,
        "bundle_sha256"@ != "rules_commit"@,
        "bundle_sha256"@ != "rules_committed_at"@,
        "upstream_version"@ != "rules_commit"@,
        "upstream_version"@ != "rules_committed_at"@,
        "rules_commit"@ != "rules_committed_at"@,
{
    reveal_strlit("chain_version");
    reveal_strlit("chain_file_id");
    reveal_strlit("chain_verified");
    reveal_strlit("bundle_sha256");
    reveal_strlit("upstream_version");
    reveal_strlit("rules_commit");
    reveal_strlit("rules_committed_at");
    assert("chain_version"@.len() == 13);
    assert("chain_file_id"@.len() == 13);
    assert("chain_verified"@.len() == 14);
    assert("bundle_sha256"@.len() == 13);
    assert("upstream_version"@.len() == 16);
    assert("rules_commit"@.len() == 12);
    assert("rules_committed_at"@.len() == 18);
    assert("chain_version"@[6] == 'v');
    assert("chain_file_id"@[6] == 'f');
    assert("bundle_sha256"@[0] == 'b');
    assert("chain_version"@[0] == 'c');
    assert("chain_file_id"@[0] == 'c');
}

/// A citation says which version of which chain an answer is from and whether it
/// verified, the digest and the version of its bundle, and the commit of its
/// rules with its time.
pub proof fn law_citation_names_the_chain(s: Basis)
    ensures
        citation(s).get("chain_version"@) == Some(Json::PosInt(s.chain_version)),
        citation(s).get("chain_file_id"@) == Some(Json::Text(text::decimal(s.file_id as nat))),
        citation(s).get("chain_verified"@) == Some(Json::Bool(s.chain_valid)),
        bundle::bundle_digest(s.bundle) matches Ok(digest) ==> citation(s).get("bundle_sha256"@)
            == Some(Json::Text(digest)),
        citation(s).get("upstream_version"@) == Some(Json::Text(s.bundle.upstream_version)),
        table::lookup(s.bundle.sources, "rules"@) matches Some(r) ==> citation(s).get(
            "rules_commit"@,
        ) == Some(Json::Text(r.provenance.commit)) && citation(s).get("rules_committed_at"@)
            == Some(Json::Text(r.provenance.committed_at)),
        table::lookup(s.bundle.sources, "rules"@) is None ==> citation(s).get("rules_commit"@)
            == Some(Json::Null) && citation(s).get("rules_committed_at"@) == Some(Json::Null),
{
    lemma_citation_keys();
    let source = table::lookup(s.bundle.sources, sources::RULES@);
    let digest = Json::Text(plan::or_empty(bundle::bundle_digest(s.bundle)));
    let commit = match source {
        Some(r) => Json::Text(r.provenance.commit),
        None => Json::Null,
    };
    let committed_at = match source {
        Some(r) => Json::Text(r.provenance.committed_at),
        None => Json::Null,
    };
    let v0 = json::no_members();
    let v1 = v0.with("chain_version"@, Json::PosInt(s.chain_version));
    let v2 = v1.with("chain_file_id"@, Json::Text(text::decimal(s.file_id as nat)));
    let v3 = v2.with("chain_verified"@, Json::Bool(s.chain_valid));
    let v4 = v3.with("bundle_sha256"@, digest);
    let v5 = v4.with("upstream_version"@, Json::Text(s.bundle.upstream_version));
    let v6 = v5.with("rules_commit"@, commit);
    json::lemma_with(v0, "chain_version"@, Json::PosInt(s.chain_version));
    json::lemma_with(v1, "chain_file_id"@, Json::Text(text::decimal(s.file_id as nat)));
    json::lemma_with(v2, "chain_verified"@, Json::Bool(s.chain_valid));
    json::lemma_with(v3, "bundle_sha256"@, digest);
    json::lemma_with(v4, "upstream_version"@, Json::Text(s.bundle.upstream_version));
    json::lemma_with(v5, "rules_commit"@, commit);
    json::lemma_with(v6, "rules_committed_at"@, committed_at);
}

proof fn lemma_duty_keys()
    ensures
        "id"@.len() == 2,
        "family"@.len() == 6,
        "subset"@.len() == 6,
        "cert_type"@.len() == 9,
        "force"@.len() == 5,
        "statement"@.len() == 9,
        "name"@.len() == 4,
        "class"@.len() == 5,
        "timeframe"@.len() == 9,
        "schema"@.len() == 6,
        "family"@ != "subset"@,
        "family"@ != "schema"@,
        "subset"@ != "schema"@,
        "cert_type"@ != "statement"@,
        "cert_type"@ != "timeframe"@,
        "statement"@ != "timeframe"@,
        "force"@ != "class"@,
{
    reveal_strlit("id");
    reveal_strlit("family");
    reveal_strlit("subset");
    reveal_strlit("cert_type");
    reveal_strlit("force");
    reveal_strlit("statement");
    reveal_strlit("name");
    reveal_strlit("class");
    reveal_strlit("timeframe");
    reveal_strlit("schema");
    assert("family"@[0] == 'f');
    assert("subset"@[1] == 'u');
    assert("schema"@[1] == 'c');
    assert("family"@[1] == 'a');
    assert("cert_type"@[0] == 'c');
    assert("statement"@[0] == 's');
    assert("timeframe"@[0] == 't');
    assert("force"@[0] == 'f');
    assert("class"@[0] == 'c');
}

/// A member that may be absent is there exactly where it has a value.
proof fn lemma_optional(v: Json, key: Seq<char>, value: Option<Seq<char>>)
    requires
        v matches Json::Object(m) && table::ordered(m),
        v.get(key) is None,
    ensures
        json::with_optional(v, key, value) matches Json::Object(m) && table::ordered(m),
        json::with_optional(v, key, value).get(key) == (match value {
            Some(s) => Some(Json::Text(s)),
            None => None,
        }),
        forall|other: Seq<char>|
            other != key ==> #[trigger] json::with_optional(v, key, value).get(other) == v.get(
                other,
            ),
{
    if let Some(s) = value {
        json::lemma_with(v, key, Json::Text(s));
    }
}

/// A duty's document has each part of it under its own name, and nothing where
/// it has no such part.
pub proof fn law_duty_document_names_its_parts(d: Duty)
    ensures
        duty_json(d).get("id"@) == Some(Json::Text(d.id)),
        duty_json(d).get("family"@) == Some(Json::Text(d.family)),
        duty_json(d).get("subset"@) == Some(Json::Text(d.subset)),
        duty_json(d).get("cert_type"@) == Some(Json::Text(d.cert_type)),
        duty_json(d).get("force"@) == Some(Json::Text(d.force)),
        duty_json(d).get("statement"@) == Some(Json::Text(d.statement)),
        duty_json(d).get("name"@) == (match d.name {
            Some(s) => Some(Json::Text(s)),
            None => None,
        }),
        duty_json(d).get("class"@) == (match d.class {
            Some(s) => Some(Json::Text(s)),
            None => None,
        }),
        duty_json(d).get("timeframe"@) == (match d.timeframe {
            Some(s) => Some(Json::Text(s)),
            None => None,
        }),
        duty_json(d).get("schema"@) == (match d.schema {
            Some(s) => Some(Json::Text(s)),
            None => None,
        }),
{
    lemma_duty_keys();
    let v0 = json::no_members();
    let v1 = v0.with("id"@, Json::Text(d.id));
    let v2 = v1.with("family"@, Json::Text(d.family));
    let v3 = v2.with("subset"@, Json::Text(d.subset));
    let v4 = v3.with("cert_type"@, Json::Text(d.cert_type));
    let v5 = v4.with("force"@, Json::Text(d.force));
    let v6 = v5.with("statement"@, Json::Text(d.statement));
    json::lemma_with(v0, "id"@, Json::Text(d.id));
    json::lemma_with(v1, "family"@, Json::Text(d.family));
    json::lemma_with(v2, "subset"@, Json::Text(d.subset));
    json::lemma_with(v3, "cert_type"@, Json::Text(d.cert_type));
    json::lemma_with(v4, "force"@, Json::Text(d.force));
    json::lemma_with(v5, "statement"@, Json::Text(d.statement));
    assert(v0.get("name"@) is None && v0.get("class"@) is None && v0.get("timeframe"@) is None
        && v0.get("schema"@) is None);
    let v7 = json::with_optional(v6, "name"@, d.name);
    let v8 = json::with_optional(v7, "class"@, d.class);
    let v9 = json::with_optional(v8, "timeframe"@, d.timeframe);
    lemma_optional(v6, "name"@, d.name);
    lemma_optional(v7, "class"@, d.class);
    lemma_optional(v8, "timeframe"@, d.timeframe);
    lemma_optional(v9, "schema"@, d.schema);
}

/// Narrowing keeps exactly the duties of the force asked for, in any case, and of
/// those only the binding ones where that is asked for, in their order.
pub proof fn law_narrowing_keeps_what_is_asked_for(
    duties: Seq<Duty>,
    force: Option<Seq<char>>,
    binding_only: bool,
)
    ensures
        narrowed(duties, force, binding_only) == duties.filter(
            |d: Duty|
                (force is None || text::ascii_lower(d.force) == text::ascii_lower(force->0)) && (
                binding_only ==> d.force == "MUST"@ || d.force == "MUST NOT"@),
        ),
    decreases duties.len(),
{
    reveal(Seq::filter);
    if duties.len() > 0 {
        law_narrowing_keeps_what_is_asked_for(duties.drop_last(), force, binding_only);
    } else {
        assert(narrowed(duties, force, binding_only) =~= duties.filter(
            |d: Duty|
                (force is None || text::ascii_lower(d.force) == text::ascii_lower(force->0)) && (
                binding_only ==> d.force == "MUST"@ || d.force == "MUST NOT"@),
        ));
    }
}

/// The party asked about is made of the arguments of the same names, and is a
/// provider where no role is given.
pub proof fn law_party_is_the_one_asked_about(arguments: Json)
    ensures
        arguments.get("role"@) matches Some(Json::Text(role)) ==> party_in(arguments).role == role,
        !(arguments.get("role"@) matches Some(Json::Text(_))) ==> party_in(arguments).role
            == "Providers"@,
        party_in(arguments).class == (match arguments.get("class"@) {
            Some(Json::Text(s)) => Some(s),
            _ => None,
        }),
        party_in(arguments).cert_type == (match arguments.get("type"@) {
            Some(Json::Text(s)) => Some(s),
            _ => None,
        }),
        party_in(arguments).path == (match arguments.get("path"@) {
            Some(Json::Text(s)) => Some(s),
            _ => None,
        }),
{
}

proof fn lemma_obligations_keys()
    ensures
        "profile"@.len() == 7,
        "count"@.len() == 5,
        "binding"@.len() == 7,
        "obligations"@.len() == 11,
        "provenance"@.len() == 10,
        "profile"@ != "binding"@,
{
    reveal_strlit("profile");
    reveal_strlit("count");
    reveal_strlit("binding");
    reveal_strlit("obligations");
    reveal_strlit("provenance");
    assert("profile"@[0] == 'p');
    assert("binding"@[0] == 'b');
}

/// Asked for obligations, the answer names the party, lists its duties as far as
/// they were asked for, and counts them and the binding ones among them.
pub proof fn law_obligations_answer_lists_the_duties(s: Basis, arguments: Json, rules: Json, i: int)
    requires
        table::lookup(s.bundle.content, "rules"@) == Some(rules),
    ensures
        ({
            let party = party_in(arguments);
            let found = narrowed(
                obligations::selected(rules, party),
                arguments.text_at("force"@),
                arguments.get("binding_only"@) == Some(Json::Bool(true)),
            );
            &&& obligations_answer(s, arguments) is Ok
            &&& obligations_answer(s, arguments) matches Ok(v) && {
                &&& v.get("profile"@) == Some(Json::Text(party.label_text()))
                &&& found.len() <= u64::MAX ==> v.get("count"@) == Some(
                    Json::PosInt(found.len() as u64),
                )
                &&& found.len() <= u64::MAX ==> v.get("binding"@) == Some(
                    Json::PosInt(
                        found.filter(
                            |d: Duty| d.force == "MUST"@ || d.force == "MUST NOT"@,
                        ).len() as u64,
                    ),
                )
                &&& v.get("obligations"@) matches Some(Json::Array(list)) && list.len()
                    == found.len() && (0 <= i < found.len() ==> list[i] == duty_json(found[i]))
            }
        }),
{
    let party = party_in(arguments);
    let found = narrowed(
        obligations::selected(rules, party),
        arguments.text_at("force"@),
        flag_at(arguments, "binding_only"@),
    );
    report::law_binding_duties_are_counted(found);
    lemma_obligations_keys();
    let list = Json::Array(duties_json(found));
    let v0 = json::no_members();
    let v1 = v0.with("profile"@, Json::Text(party.label_text()));
    let v2 = v1.with("count"@, Json::PosInt(found.len() as u64));
    let v3 = v2.with("binding"@, Json::PosInt(report::binding_count(found) as u64));
    let v4 = v3.with("obligations"@, list);
    json::lemma_with(v0, "profile"@, Json::Text(party.label_text()));
    json::lemma_with(v1, "count"@, Json::PosInt(found.len() as u64));
    json::lemma_with(v2, "binding"@, Json::PosInt(report::binding_count(found) as u64));
    json::lemma_with(v3, "obligations"@, list);
    json::lemma_with(v4, "provenance"@, citation(s));
}

/// A match for a rule's id shows the path that ends in it and the rule that
/// stands there; there is one for each such path and no other.
pub proof fn law_rule_matches_are_exact(leaves: Seq<(Seq<char>, Json)>, id: Seq<char>, found: Json)
    ensures
        rule_matches(leaves, id).contains(found) <==> exists|i: int|
            0 <= i < leaves.len() && text::split((#[trigger] leaves[i]).0, '/').last() == id
                && found == json::no_members().with("path"@, Json::Text(leaves[i].0)).with(
                "rule"@,
                leaves[i].1,
            ),
    decreases leaves.len(),
{
    if leaves.len() > 0 {
        let front = leaves.drop_last();
        let last = leaves[leaves.len() - 1];
        law_rule_matches_are_exact(front, id, found);
        text::law_after_last_is_the_last_piece(last.0, '/');
        let rest = rule_matches(front, id);
        let now = rule_matches(leaves, id);
        if rest.contains(found) {
            let k = choose|k: int| 0 <= k < rest.len() && rest[k] == found;
            assert(now[k] == found);
            let i = choose|i: int|
                0 <= i < front.len() && text::split((#[trigger] front[i]).0, '/').last() == id
                    && found == json::no_members().with("path"@, Json::Text(front[i].0)).with(
                    "rule"@,
                    front[i].1,
                );
            assert(leaves[i] == front[i]);
        }
        if now.contains(found) {
            let k = choose|k: int| 0 <= k < now.len() && now[k] == found;
            if k < rest.len() {
                assert(rest[k] == found);
            } else {
                assert(text::split(leaves[leaves.len() - 1].0, '/').last() == id);
            }
        }
        if exists|i: int|
            0 <= i < leaves.len() && text::split((#[trigger] leaves[i]).0, '/').last() == id
                && found == json::no_members().with("path"@, Json::Text(leaves[i].0)).with(
                "rule"@,
                leaves[i].1,
            ) {
            let i = choose|i: int|
                0 <= i < leaves.len() && text::split((#[trigger] leaves[i]).0, '/').last() == id
                    && found == json::no_members().with("path"@, Json::Text(leaves[i].0)).with(
                    "rule"@,
                    leaves[i].1,
                );
            if i < front.len() {
                assert(front[i] == leaves[i]);
            } else {
                assert(now[now.len() - 1] == found);
            }
        }
    }
}

proof fn lemma_overlay_in(controls: Seq<(Seq<char>, Json)>, id: Seq<char>)
    ensures
        family_overlay(controls, id) is None <==> forall|i: int|
            0 <= i < controls.len() ==> oscal::normal_id((#[trigger] controls[i]).0) != id,
        family_overlay(controls, id) matches Some(v) ==> exists|i: int|
            0 <= i < controls.len() && oscal::normal_id((#[trigger] controls[i]).0) == id
                && controls[i].1 == v,
    decreases controls.len(),
{
    if controls.len() > 0 {
        let front = controls.drop_last();
        lemma_overlay_in(front, id);
        let last = controls[controls.len() - 1];
        if let Some(v) = family_overlay(front, id) {
            let i = choose|i: int|
                0 <= i < front.len() && oscal::normal_id((#[trigger] front[i]).0) == id
                    && front[i].1 == v;
            assert(controls[i] == front[i]);
        } else {
            assert forall|i: int| 0 <= i < front.len() implies oscal::normal_id(
                (#[trigger] controls[i]).0,
            ) != id by {
                assert(front[i] == controls[i]);
            }
        }
    }
}

/// The overlay of a control is what some family of the rules tailors under its id,
/// in whichever form it is written, and there is none only where no family does.
pub proof fn law_overlay_is_what_the_rules_tailor(families: Seq<(Seq<char>, Json)>, id: Seq<char>)
    ensures
        overlay(families, id) matches Some(v) ==> exists|i: int, j: int|
            #![trigger json::members_of(Some(families[i].1))[j]]
            0 <= i < families.len() && 0 <= j < json::members_of(Some(families[i].1)).len()
                && oscal::normal_id(json::members_of(Some(families[i].1))[j].0) == id
                && json::members_of(Some(families[i].1))[j].1 == v,
        overlay(families, id) is None ==> forall|i: int, j: int|
            #![trigger json::members_of(Some(families[i].1))[j]]
            0 <= i < families.len() && 0 <= j < json::members_of(Some(families[i].1)).len()
                ==> oscal::normal_id(json::members_of(Some(families[i].1))[j].0) != id,
    decreases families.len(),
{
    if families.len() > 0 {
        let front = families.drop_last();
        let n = families.len() - 1;
        law_overlay_is_what_the_rules_tailor(front, id);
        let controls = json::members_of(Some(families[n].1));
        lemma_overlay_in(controls, id);
        if let Some(v) = overlay(front, id) {
            let (i, j) = choose|i: int, j: int|
                #![trigger json::members_of(Some(front[i].1))[j]]
                0 <= i < front.len() && 0 <= j < json::members_of(Some(front[i].1)).len()
                    && oscal::normal_id(json::members_of(Some(front[i].1))[j].0) == id
                    && json::members_of(Some(front[i].1))[j].1 == v;
            assert(front[i] == families[i]);
            assert(json::members_of(Some(families[i].1))[j].1 == v);
        } else if let Some(v) = family_overlay(controls, id) {
            let j = choose|j: int|
                0 <= j < controls.len() && oscal::normal_id((#[trigger] controls[j]).0) == id
                    && controls[j].1 == v;
            assert(json::members_of(Some(families[n].1))[j].1 == v);
        } else {
            assert forall|i: int, j: int|
                #![trigger json::members_of(Some(families[i].1))[j]]
                0 <= i < families.len() && 0 <= j < json::members_of(
                    Some(families[i].1),
                ).len() implies oscal::normal_id(json::members_of(Some(families[i].1))[j].0)
                != id by {
                if i < front.len() {
                    assert(front[i] == families[i]);
                    assert(json::members_of(Some(front[i].1))[j] == json::members_of(
                        Some(families[i].1),
                    )[j]);
                } else {
                    assert(controls[j] == json::members_of(Some(families[i].1))[j]);
                }
            }
        }
    }
}

proof fn lemma_control_keys()
    ensures
        "id"@.len() == 2,
        "requested"@.len() == 9,
        "control"@.len() == 7,
        "fedramp_overlay"@.len() == 15,
        "referenced_by_fedramp"@.len() == 21,
        "provenance"@.len() == 10,
{
    reveal_strlit("id");
    reveal_strlit("requested");
    reveal_strlit("control");
    reveal_strlit("fedramp_overlay");
    reveal_strlit("referenced_by_fedramp");
    reveal_strlit("provenance");
}

/// Asked for a control in either form of its id, the answer has the control that
/// the catalog gives under that id, the id asked for and its normal form, what
/// the rules tailor of it, and whether they refer to it. One that the catalog
/// lacks is an error.
pub proof fn law_control_answer_is_of_the_control(
    s: Basis,
    arguments: Json,
    requested: Seq<char>,
    catalog: Json,
    rules: Json,
)
    requires
        arguments.get("id"@) == Some(Json::Text(requested)),
        table::lookup(s.bundle.content, "oscal"@) == Some(catalog),
        table::lookup(s.bundle.content, "rules"@) == Some(rules),
    ensures
        ({
            let id = oscal::normal_id(requested);
            let control = table::lookup(oscal::controls_of(catalog), id);
            &&& control_answer(s, arguments) is Ok <==> control is Some
            &&& control_answer(s, arguments) matches Ok(v) ==> {
                &&& v.get("id"@) == Some(Json::Text(id))
                &&& v.get("requested"@) == Some(Json::Text(requested))
                &&& v.get("control"@) == control
                &&& v.get("fedramp_overlay"@) == Some(
                    json::or_null(overlay(json::members_of(rules.get("CTL"@)), id)),
                )
                &&& v.get("referenced_by_fedramp"@) == Some(
                    Json::Bool(table::lookup(oscal::references(rules), id) is Some),
                )
            }
        }),
{
    let id = oscal::normal_id(requested);
    lemma_control_keys();
    if let Some(control) = table::lookup(oscal::controls_of(catalog), id) {
        let over = json::or_null(overlay(json::members_of(rules.get("CTL"@)), id));
        let refers = Json::Bool(table::lookup(oscal::references(rules), id) is Some);
        let v0 = json::no_members();
        let v1 = v0.with("id"@, Json::Text(id));
        let v2 = v1.with("requested"@, Json::Text(requested));
        let v3 = v2.with("control"@, control);
        let v4 = v3.with("fedramp_overlay"@, over);
        let v5 = v4.with("referenced_by_fedramp"@, refers);
        json::lemma_with(v0, "id"@, Json::Text(id));
        json::lemma_with(v1, "requested"@, Json::Text(requested));
        json::lemma_with(v2, "control"@, control);
        json::lemma_with(v3, "fedramp_overlay"@, over);
        json::lemma_with(v4, "referenced_by_fedramp"@, refers);
        json::lemma_with(v5, "provenance"@, citation(s));
    }
}

proof fn lemma_kev_keys()
    ensures
        "cve"@.len() == 3,
        "known_exploited"@.len() == 15,
        "entry"@.len() == 5,
        "governed_by"@.len() == 11,
        "provenance"@.len() == 10,
        "count"@.len() == 5,
{
    reveal_strlit("cve");
    reveal_strlit("known_exploited");
    reveal_strlit("entry");
    reveal_strlit("governed_by");
    reveal_strlit("provenance");
    reveal_strlit("count");
}

/// Asked whether a vulnerability is known to be exploited, in any case, the
/// answer says yes exactly where the list has it and gives its entry; asked for
/// none it counts them. Either way it names the rules that govern the list.
pub proof fn law_kev_answer_is_of_the_list(
    s: Basis,
    arguments: Json,
    catalog: Json,
    rules: Json,
)
    requires
        table::lookup(s.bundle.content, "kev"@) == Some(catalog),
        table::lookup(s.bundle.content, "rules"@) == Some(rules),
    ensures
        ({
            let entries = kev::vulnerabilities(catalog);
            &&& kev_answer(s, arguments) is Ok
            &&& kev_answer(s, arguments) matches Ok(v) && {
                &&& v.get("governed_by"@) == Some(texts_array(governing_ids(rules)))
                &&& arguments.get("cve"@) matches Some(Json::Text(cve)) ==> {
                    &&& v.get("cve"@) == Some(Json::Text(text::ascii_upper(cve)))
                    &&& v.get("known_exploited"@) == Some(
                        Json::Bool(table::lookup(entries, text::ascii_upper(cve)) is Some),
                    )
                    &&& v.get("entry"@) == Some(
                        json::or_null(table::lookup(entries, text::ascii_upper(cve))),
                    )
                }
                &&& arguments.get("cve"@) is None && entries.len() <= u64::MAX ==> v.get("count"@)
                    == Some(Json::PosInt(entries.len() as u64))
            }
        }),
{
    lemma_kev_keys();
    let entries = kev::vulnerabilities(catalog);
    let governed_by = texts_array(governing_ids(rules));
    let v0 = json::no_members();
    match arguments.text_at("cve"@) {
        Some(cve) => {
            let id = text::ascii_upper(cve);
            let known = Json::Bool(table::lookup(entries, id) is Some);
            let entry = json::or_null(table::lookup(entries, id));
            let v1 = v0.with("cve"@, Json::Text(id));
            let v2 = v1.with("known_exploited"@, known);
            let v3 = v2.with("entry"@, entry);
            let v4 = v3.with("governed_by"@, governed_by);
            json::lemma_with(v0, "cve"@, Json::Text(id));
            json::lemma_with(v1, "known_exploited"@, known);
            json::lemma_with(v2, "entry"@, entry);
            json::lemma_with(v3, "governed_by"@, governed_by);
            json::lemma_with(v4, "provenance"@, citation(s));
        },
        None => {
            let v1 = v0.with("count"@, Json::PosInt(entries.len() as u64));
            let v2 = v1.with("governed_by"@, governed_by);
            json::lemma_with(v0, "count"@, Json::PosInt(entries.len() as u64));
            json::lemma_with(v1, "governed_by"@, governed_by);
            json::lemma_with(v2, "provenance"@, citation(s));
        },
    }
}

/// The limit of a search is the one asked for, up to a hundred, or twenty.
pub proof fn law_search_limit_is_as_asked(arguments: Json)
    ensures
        arguments.number_at("limit"@) is None ==> limit_in(arguments) == 20,
        arguments.number_at("limit"@) matches Some(n) ==> limit_in(arguments) <= n && limit_in(
            arguments,
        ) <= 100 && (n <= 100 ==> limit_in(arguments) == n) && (n > 100 ==> limit_in(arguments)
            == 100),
{
}

/// A search finds only leaves whose text, in lower case, holds the query, and,
/// unless it was cut off at its limit, every one of them.
pub proof fn law_search_finds_what_holds_the_query(
    leaves: Seq<(Seq<char>, Json)>,
    query: Seq<char>,
    limit: nat,
    hits: Seq<Json>,
    i: int,
)
    ensures
        scanned(leaves, query, limit, hits).len() >= hits.len(),
        forall|k: int|
            0 <= k < hits.len() ==> #[trigger] scanned(leaves, query, limit, hits)[k] == hits[k],
        forall|k: int|
            #![trigger scanned(leaves, query, limit, hits)[k]]
            hits.len() <= k < scanned(leaves, query, limit, hits).len() ==> exists|j: int|
                0 <= j < leaves.len() && text::holds(
                    text::lower_text(outside::json_text((#[trigger] leaves[j]).1)),
                    query,
                ) && scanned(leaves, query, limit, hits)[k] == hit(leaves[j].0, leaves[j].1),
        scanned(leaves, query, limit, hits).len() < limit && 0 <= i < leaves.len() && text::holds(
            text::lower_text(outside::json_text(leaves[i].1)),
            query,
        ) ==> scanned(leaves, query, limit, hits).contains(hit(leaves[i].0, leaves[i].1)),
    decreases leaves.len(),
{
    if leaves.len() > 0 {
        let now = with_hit(hits, leaves[0].0, leaves[0].1, query);
        let rest = leaves.drop_first();
        let found = scanned(leaves, query, limit, hits);
        if now.len() < limit {
            law_search_finds_what_holds_the_query(rest, query, limit, now, i - 1);
            assert(found == scanned(rest, query, limit, now));
            assert forall|k: int| 0 <= k < hits.len() implies #[trigger] found[k] == hits[k] by {
                assert(now[k] == hits[k]);
            }
            assert forall|k: int| #![trigger found[k]] hits.len() <= k < found.len() implies exists|
                j: int,
            |
                0 <= j < leaves.len() && text::holds(
                    text::lower_text(outside::json_text((#[trigger] leaves[j]).1)),
                    query,
                ) && found[k] == hit(leaves[j].0, leaves[j].1) by {
                if k < now.len() {
                    assert(found[k] == now[k]);
                    assert(leaves[0] == leaves[0]);
                } else {
                    let j = choose|j: int|
                        0 <= j < rest.len() && text::holds(
                            text::lower_text(outside::json_text((#[trigger] rest[j]).1)),
                            query,
                        ) && found[k] == hit(rest[j].0, rest[j].1);
                    assert(leaves[j + 1] == rest[j]);
                }
            }
            if 0 <= i < leaves.len() && text::holds(
                text::lower_text(outside::json_text(leaves[i].1)),
                query,
            ) && found.len() < limit {
                if i == 0 {
                    assert(found[hits.len() as int] == now[hits.len() as int]);
                } else {
                    assert(rest[i - 1] == leaves[i]);
                }
            }
        } else {
            assert(found == now);
            assert forall|k: int| #![trigger found[k]] hits.len() <= k < found.len() implies exists|
                j: int,
            |
                0 <= j < leaves.len() && text::holds(
                    text::lower_text(outside::json_text((#[trigger] leaves[j]).1)),
                    query,
                ) && found[k] == hit(leaves[j].0, leaves[j].1) by {
                assert(leaves[0] == leaves[0]);
            }
        }
    }
}

proof fn lemma_search_keys()
    ensures
        "query"@.len() == 5,
        "count"@.len() == 5,
        "truncated"@.len() == 9,
        "hits"@.len() == 4,
        "provenance"@.len() == 10,
        "query"@ != "count"@,
        "path"@.len() == 4,
        "id"@.len() == 2,
        "name"@.len() == 4,
        "force"@.len() == 5,
        "statement"@.len() == 9,
        "path"@ != "name"@,
{
    reveal_strlit("query");
    reveal_strlit("count");
    reveal_strlit("truncated");
    reveal_strlit("hits");
    reveal_strlit("provenance");
    reveal_strlit("path");
    reveal_strlit("id");
    reveal_strlit("name");
    reveal_strlit("force");
    reveal_strlit("statement");
    assert("query"@[0] == 'q');
    assert("count"@[0] == 'c');
    assert("path"@[0] == 'p');
    assert("name"@[0] == 'n');
}

/// A hit names the rule by its path and its id, with the rule's own name, force
/// and statement.
pub proof fn law_hit_names_its_rule(path: Seq<char>, leaf: Json)
    ensures
        hit(path, leaf).get("path"@) == Some(Json::Text(path)),
        hit(path, leaf).get("id"@) == Some(Json::Text(text::split(path, '/').last())),
        leaf.get("name"@) is Some ==> hit(path, leaf).get("name"@) == leaf.get("name"@),
        leaf.get("force"@) is Some ==> hit(path, leaf).get("force"@) == leaf.get("force"@),
        leaf.get("statement"@) is Some ==> hit(path, leaf).get("statement"@) == leaf.get(
            "statement"@,
        ),
{
    lemma_search_keys();
    text::law_after_last_is_the_last_piece(path, '/');
    let id = Json::Text(text::after_last(path, '/'));
    let name = json::or_null(leaf.get("name"@));
    let force = json::or_null(leaf.get("force"@));
    let statement = json::or_null(leaf.get("statement"@));
    let v0 = json::no_members();
    let v1 = v0.with("path"@, Json::Text(path));
    let v2 = v1.with("id"@, id);
    let v3 = v2.with("name"@, name);
    let v4 = v3.with("force"@, force);
    json::lemma_with(v0, "path"@, Json::Text(path));
    json::lemma_with(v1, "id"@, id);
    json::lemma_with(v2, "name"@, name);
    json::lemma_with(v3, "force"@, force);
    json::lemma_with(v4, "statement"@, statement);
}

/// Asked to search, the answer has the query in lower case, the hits and their
/// number, and says that it was cut off exactly where they reach the limit. A
/// query of fewer than three characters is an error.
pub proof fn law_search_answer_has_the_hits(
    s: Basis,
    arguments: Json,
    wanted: Seq<char>,
    rules: Json,
)
    requires
        arguments.get("query"@) == Some(Json::Text(wanted)),
        table::lookup(s.bundle.content, "rules"@) == Some(rules),
    ensures
        search_answer(s, arguments) is Ok <==> text::lower_text(wanted).len() >= 3,
        search_answer(s, arguments) matches Ok(v) ==> {
            &&& v.get("query"@) == Some(Json::Text(text::lower_text(wanted)))
            &&& v.get("hits"@) matches Some(Json::Array(hits)) && {
                &&& hits == scanned(
                    rules::flattened(rules).0,
                    text::lower_text(wanted),
                    limit_in(arguments) as nat,
                    Seq::empty(),
                )
                &&& hits.len() <= u64::MAX ==> v.get("count"@) == Some(
                    Json::PosInt(hits.len() as u64),
                )
                &&& v.get("truncated"@) == Some(Json::Bool(hits.len() >= limit_in(arguments)))
            }
        },
{
    lemma_search_keys();
    let query = text::lower_text(wanted);
    let limit = limit_in(arguments);
    let hits = scanned(rules::flattened(rules).0, query, limit as nat, Seq::empty());
    let v0 = json::no_members();
    let v1 = v0.with("query"@, Json::Text(query));
    let v2 = v1.with("count"@, Json::PosInt(hits.len() as u64));
    let v3 = v2.with("truncated"@, Json::Bool(hits.len() >= limit));
    let v4 = v3.with("hits"@, Json::Array(hits));
    json::lemma_with(v0, "query"@, Json::Text(query));
    json::lemma_with(v1, "count"@, Json::PosInt(hits.len() as u64));
    json::lemma_with(v2, "truncated"@, Json::Bool(hits.len() >= limit));
    json::lemma_with(v3, "hits"@, Json::Array(hits));
    json::lemma_with(v4, "provenance"@, citation(s));
}

proof fn lemma_frame_keys()
    ensures
        "content"@.len() == 7,
        "isError"@.len() == 7,
        "content"@ != "isError"@,
        "type"@.len() == 4,
        "text"@.len() == 4,
        "type"@ != "text"@,
        "jsonrpc"@.len() == 7,
        "id"@.len() == 2,
        "result"@.len() == 6,
        "error"@.len() == 5,
        "code"@.len() == 4,
        "message"@.len() == 7,
{
    reveal_strlit("content");
    reveal_strlit("isError");
    reveal_strlit("type");
    reveal_strlit("text");
    reveal_strlit("jsonrpc");
    reveal_strlit("id");
    reveal_strlit("result");
    reveal_strlit("error");
    reveal_strlit("code");
    reveal_strlit("message");
    assert("content"@[0] == 'c');
    assert("isError"@[0] == 'i');
    assert("type"@[1] == 'y');
    assert("text"@[1] == 'e');
}

/// A tool's answer is framed as its text and not as an error; a refusal is framed
/// as its message, and as an error.
pub proof fn law_outcome_says_whether_it_failed(r: Result<Json, Seq<char>>)
    ensures
        outcome(r).get("isError"@) == Some(Json::Bool(r is Err)),
        outcome(r).get("content"@) matches Some(Json::Array(items)) && items.len() == 1
            && items[0].get("type"@) == Some(Json::Text("text"@)) && items[0].get("text"@) == Some(
            Json::Text(
                match r {
                    Ok(v) => outside::json_pretty(v),
                    Err(e) => e,
                },
            ),
        ),
{
    lemma_frame_keys();
    let content = match r {
        Ok(v) => outside::json_pretty(v),
        Err(e) => e,
    };
    let w0 = json::no_members();
    let w1 = w0.with("type"@, Json::Text("text"@));
    json::lemma_with(w0, "type"@, Json::Text("text"@));
    json::lemma_with(w1, "text"@, Json::Text(content));
    let item = w1.with("text"@, Json::Text(content));
    let items = Json::Array(seq![item]);
    let v1 = w0.with("content"@, items);
    json::lemma_with(w0, "content"@, items);
    json::lemma_with(v1, "isError"@, Json::Bool(r is Err));
}

/// A request is answered by what its method asks for: a call by the outcome of
/// the tool it names on the arguments it gives, a listing by the tools, and an
/// unknown method by an error and no result.
pub proof fn law_reply_is_to_the_method(s: Basis, id: Json, request: Json, params: Json)
    requires
        request.get("params"@) == Some(params),
    ensures
        request.get("method"@) == Some(Json::Text("tools/call"@)) ==> (params.get("name"@) matches Some(
            Json::Text(name),
        ) ==> (params.get("arguments"@) matches Some(arguments) ==> reply(s, id, request).get(
            "result"@,
        ) == Some(outcome(answer(s, name, arguments))))),
        request.get("method"@) == Some(Json::Text("tools/list"@)) ==> (reply(s, id, request).get(
            "result"@,
        ) matches Some(v) && v.get("tools"@) == Some(Json::Array(tools()))),
        request.get("method"@) matches Some(Json::Text(method)) ==> (method != "initialize"@
            && method != "ping"@ && method != "tools/list"@ && method != "tools/call"@ ==> reply(
            s,
            id,
            request,
        ).get("result"@) is None && (reply(s, id, request).get("error"@) matches Some(e) && e.get(
            "message"@,
        ) == Some(Json::Text("unknown method `"@ + method + "`"@)) && e.get("code"@) == Some(
            Json::NegInt(METHOD_NOT_FOUND),
        ))),
{
    lemma_frame_keys();
    lemma_methods();
    let v0 = json::no_members();
    let v1 = v0.with("jsonrpc"@, Json::Text("2.0"@));
    let v2 = v1.with("id"@, id);
    json::lemma_with(v0, "jsonrpc"@, Json::Text("2.0"@));
    json::lemma_with(v1, "id"@, id);
    let listing = v0.with("tools"@, Json::Array(tools()));
    json::lemma_with(v0, "tools"@, Json::Array(tools()));
    json::lemma_with(v2, "result"@, listing);
    if let Some(Json::Text(name)) = params.get("name"@) {
        if let Some(arguments) = params.get("arguments"@) {
            json::lemma_with(v2, "result"@, outcome(answer(s, name, arguments)));
        }
    }
    if let Some(Json::Text(method)) = request.get("method"@) {
        let w1 = v0.with("code"@, Json::NegInt(METHOD_NOT_FOUND));
        let message = Json::Text("unknown method `"@ + method + "`"@);
        json::lemma_with(v0, "code"@, Json::NegInt(METHOD_NOT_FOUND));
        json::lemma_with(w1, "message"@, message);
        json::lemma_with(v2, "error"@, w1.with("message"@, message));
    }
}

proof fn lemma_methods()
    ensures
        "initialize"@.len() == 10,
        "ping"@.len() == 4,
        "tools/list"@.len() == 10,
        "tools/call"@.len() == 10,
        "initialize"@ != "tools/list"@,
        "initialize"@ != "tools/call"@,
        "tools/list"@ != "tools/call"@,
{
    reveal_strlit("initialize");
    reveal_strlit("ping");
    reveal_strlit("tools/list");
    reveal_strlit("tools/call");
    assert("initialize"@[0] == 'i');
    assert("tools/list"@[0] == 't');
    assert("tools/call"@[0] == 't');
    assert("tools/list"@[6] == 'l');
    assert("tools/call"@[6] == 'c');
}

proof fn lemma_tool_names()
    ensures
        "fedramp_status"@.len() == 14,
        "fedramp_obligations"@.len() == 19,
        "fedramp_rule"@.len() == 12,
        "fedramp_search"@.len() == 14,
        "fedramp_control"@.len() == 15,
        "fedramp_kev"@.len() == 11,
        "fedramp_status"@ != "fedramp_search"@,
{
    reveal_strlit("fedramp_status");
    reveal_strlit("fedramp_obligations");
    reveal_strlit("fedramp_rule");
    reveal_strlit("fedramp_search");
    reveal_strlit("fedramp_control");
    reveal_strlit("fedramp_kev");
    assert("fedramp_status"@[9] == 't');
    assert("fedramp_search"@[9] == 'e');
}

/// Each tool gives its own answer: the status is the citation itself, and each of
/// the others answers what it is named for. No other name is answered.
pub proof fn law_tools_answer_by_name(s: Basis, name: Seq<char>, arguments: Json)
    ensures
        answer(s, "fedramp_status"@, arguments) == Ok::<Json, Seq<char>>(citation(s)),
        answer(s, "fedramp_obligations"@, arguments) == obligations_answer(s, arguments),
        answer(s, "fedramp_rule"@, arguments) == rule_answer(s, arguments),
        answer(s, "fedramp_search"@, arguments) == search_answer(s, arguments),
        answer(s, "fedramp_control"@, arguments) == control_answer(s, arguments),
        answer(s, "fedramp_kev"@, arguments) == kev_answer(s, arguments),
        name != "fedramp_status"@ && name != "fedramp_obligations"@ && name != "fedramp_rule"@
            && name != "fedramp_search"@ && name != "fedramp_control"@ && name != "fedramp_kev"@
            ==> answer(s, name, arguments) is Err,
{
    lemma_tool_names();
}

/// A blank line is not answered; a line that is a request is answered by the
/// response to it, and one that does not parse by an error for no request.
pub proof fn law_line_is_answered_by_its_request(s: Basis, line: Seq<char>)
    ensures
        (forall|i: int| 0 <= i < line.len() ==> text::is_white(#[trigger] line[i]))
            ==> line_response(s, line) is None,
        (exists|i: int| 0 <= i < line.len() && !text::is_white(#[trigger] line[i])) ==> (
        match outside::json_parse(encode_utf8(line)) {
            Ok(request) => match response(s, request) {
                Some(v) => line_response(s, line) == Some(outside::json_text(v)),
                None => line_response(s, line) is None,
            },
            Err(_) => line_response(s, line) is Some,
        }),
{
    lemma_blank(line);
}

proof fn lemma_blank(line: Seq<char>)
    ensures
        text::words(line).len() == 0 <==> forall|i: int|
            0 <= i < line.len() ==> text::is_white(#[trigger] line[i]),
    decreases line.len(),
{
    if line.len() > 0 {
        let front = line.drop_last();
        lemma_blank(front);
        text::law_words_are_what_white_space_parts(line);
        text::law_words_are_what_white_space_parts(front);
        if text::words(line).len() == 0 {
            assert forall|i: int| 0 <= i < line.len() implies text::is_white(#[trigger] line[i]) by {
                if i < front.len() {
                    assert(front[i] == line[i]);
                }
            }
        }
        if forall|i: int| 0 <= i < line.len() ==> text::is_white(#[trigger] line[i]) {
            assert forall|i: int| 0 <= i < front.len() implies text::is_white(
                #[trigger] front[i],
            ) by {
                assert(front[i] == line[i]);
            }
            assert(text::is_white(line[line.len() - 1]));
        }
    }
}

/// The rules that govern the list of exploited vulnerabilities, in order: exactly
/// the rule families' leaves whose statement holds one of the list's names.
pub proof fn law_governing_ids_are_exact(rules: Json, id: Seq<char>)
    ensures
        governing_ids(rules).contains(id) <==> exists|i: int|
            0 <= i < rules::flattened(rules).0.len() && text::begins(
                (#[trigger] rules::flattened(rules).0[i]).0,
                "FRR/"@,
            ) && text::split(rules::flattened(rules).0[i].0, '/').last() == id && exists|k: int|
                0 <= k < kev::aliases(rules).len() && text::holds(
                    kev::statement(rules::flattened(rules).0[i].1),
                    #[trigger] kev::aliases(rules)[k],
                ),
{
    let leaves = rules::flattened(rules).0;
    let names = kev::aliases(rules);
    kev::law_governing_rules_are_exact(leaves, names, id);
    crate::diff::law_sorted_names_are_the_names(kev::governing(leaves, names));
}

/// Asked for a rule, the answer repeats its id and has every match for it.
pub proof fn law_rule_answer_has_the_matches(
    s: Basis,
    arguments: Json,
    id: Seq<char>,
    rules: Json,
)
    requires
        arguments.get("id"@) == Some(Json::Text(id)),
        table::lookup(s.bundle.content, "rules"@) == Some(rules),
    ensures
        rule_answer(s, arguments) is Ok <==> rule_matches(rules::flattened(rules).0, id).len() > 0,
        rule_answer(s, arguments) matches Ok(v) ==> v.get("id"@) == Some(Json::Text(id)) && v.get(
            "matches"@,
        ) == Some(Json::Array(rule_matches(rules::flattened(rules).0, id))),
{
    reveal_strlit("id");
    reveal_strlit("matches");
    reveal_strlit("provenance");
    assert("id"@.len() == 2 && "matches"@.len() == 7 && "provenance"@.len() == 10);
    let matches = Json::Array(rule_matches(rules::flattened(rules).0, id));
    let v0 = json::no_members();
    let v1 = v0.with("id"@, Json::Text(id));
    let v2 = v1.with("matches"@, matches);
    json::lemma_with(v0, "id"@, Json::Text(id));
    json::lemma_with(v1, "matches"@, matches);
    json::lemma_with(v2, "provenance"@, citation(s));
}

/// The greeting speaks the protocol version that the client asked for, or the
/// server's own where it asked for none, and offers tools.
pub proof fn law_welcome_speaks_the_clients_version(params: Json)
    ensures
        params.get("protocolVersion"@) matches Some(Json::Text(version)) ==> welcome(params).get(
            "protocolVersion"@,
        ) == Some(Json::Text(version)),
        params.get("protocolVersion"@) is None ==> welcome(params).get("protocolVersion"@) == Some(
            Json::Text(PROTOCOL_VERSION@),
        ),
        welcome(params).get2("capabilities"@, "tools"@) == Some(json::no_members()),
        welcome(params).get2("serverInfo"@, "name"@) == Some(Json::Text(SERVER_NAME@)),
        welcome(params).get2("serverInfo"@, "version"@) == Some(Json::Text(SERVER_VERSION@)),
{
    reveal_strlit("protocolVersion");
    reveal_strlit("capabilities");
    reveal_strlit("serverInfo");
    reveal_strlit("name");
    reveal_strlit("version");
    assert("protocolVersion"@.len() == 15 && "capabilities"@.len() == 12 && "serverInfo"@.len()
        == 10 && "name"@.len() == 4 && "version"@.len() == 7);
    let version = Json::Text(
        match params.text_at("protocolVersion"@) {
            Some(version) => version,
            None => PROTOCOL_VERSION@,
        },
    );
    let v0 = json::no_members();
    let tools = v0.with("tools"@, v0);
    json::lemma_with(v0, "tools"@, v0);
    let w1 = v0.with("name"@, Json::Text(SERVER_NAME@));
    json::lemma_with(v0, "name"@, Json::Text(SERVER_NAME@));
    json::lemma_with(w1, "version"@, Json::Text(SERVER_VERSION@));
    let info = w1.with("version"@, Json::Text(SERVER_VERSION@));
    let v1 = v0.with("protocolVersion"@, version);
    let v2 = v1.with("capabilities"@, tools);
    json::lemma_with(v0, "protocolVersion"@, version);
    json::lemma_with(v1, "capabilities"@, tools);
    json::lemma_with(v2, "serverInfo"@, info);
}

/// A tool is described under its name, with the parameters it takes and the one it
/// needs, if any.
pub proof fn law_tool_is_described(
    name: Seq<char>,
    description: Seq<char>,
    properties: Json,
    required: Option<Seq<char>>,
)
    ensures
        tool(name, description, properties, required).get("name"@) == Some(Json::Text(name)),
        tool(name, description, properties, required).get("description"@) == Some(
            Json::Text(description),
        ),
        tool(name, description, properties, required).get2("inputSchema"@, "properties"@) == Some(
            properties,
        ),
        tool(name, description, properties, required).get2("inputSchema"@, "required"@) == (
        match required {
            Some(r) => Some(Json::Array(seq![Json::Text(r)])),
            None => None,
        }),
{
    reveal_strlit("name");
    reveal_strlit("description");
    reveal_strlit("inputSchema");
    reveal_strlit("type");
    reveal_strlit("properties");
    reveal_strlit("required");
    assert("name"@.len() == 4 && "description"@.len() == 11 && "inputSchema"@.len() == 11
        && "type"@.len() == 4 && "properties"@.len() == 10 && "required"@.len() == 8);
    assert("description"@[0] == 'd' && "inputSchema"@[0] == 'i');
    let v0 = json::no_members();
    let w1 = v0.with("type"@, Json::Text("object"@));
    let schema = w1.with("properties"@, properties);
    json::lemma_with(v0, "type"@, Json::Text("object"@));
    json::lemma_with(w1, "properties"@, properties);
    let needs = match required {
        Some(r) => Json::Array(seq![Json::Text(r)]),
        None => Json::Null,
    };
    json::lemma_with(schema, "required"@, needs);
    let full = match required {
        Some(r) => schema.with("required"@, Json::Array(seq![Json::Text(r)])),
        None => schema,
    };
    let v1 = v0.with("name"@, Json::Text(name));
    let v2 = v1.with("description"@, Json::Text(description));
    json::lemma_with(v0, "name"@, Json::Text(name));
    json::lemma_with(v1, "description"@, Json::Text(description));
    json::lemma_with(v2, "inputSchema"@, full);
}

/// A line that does not parse is answered by a parse error with a null id.
pub proof fn law_unreadable_line_is_a_parse_error(s: Basis, line: Seq<char>)
    requires
        exists|i: int| 0 <= i < line.len() && !text::is_white(#[trigger] line[i]),
        outside::json_parse(encode_utf8(line)) is Err,
    ensures
        exists|v: Json|
            line_response(s, line) == Some(#[trigger] outside::json_text(v)) && v.get("id"@) == Some(
                Json::Null,
            ) && v.get("result"@) is None && (v.get("error"@) matches Some(e) && e.get("code"@)
                == Some(Json::NegInt(-32700i64)) && (e.get("message"@) matches Some(Json::Text(m))
                && text::begins(m, "parse error: "@))),
{
    lemma_blank(line);
    lemma_frame_keys();
    let reason = outside::json_parse(encode_utf8(line))->Err_0;
    let message = "parse error: "@ + reason;
    let v0 = json::no_members();
    let w1 = v0.with("code"@, Json::NegInt(PARSE_ERROR));
    let e = w1.with("message"@, Json::Text(message));
    json::lemma_with(v0, "code"@, Json::NegInt(PARSE_ERROR));
    json::lemma_with(w1, "message"@, Json::Text(message));
    let v1 = v0.with("jsonrpc"@, Json::Text("2.0"@));
    let v2 = v1.with("id"@, Json::Null);
    let v = v2.with("error"@, e);
    json::lemma_with(v0, "jsonrpc"@, Json::Text("2.0"@));
    json::lemma_with(v1, "id"@, Json::Null);
    json::lemma_with(v2, "error"@, e);
    text::lemma_begins_self("parse error: "@);
    text::lemma_begins_more("parse error: "@, reason, "parse error: "@);
    assert(line_response(s, line) == Some(outside::json_text(v)));
}

} // verus!
