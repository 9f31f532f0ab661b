//! What each command decides and prints, apart from reading and writing.

use vstd::prelude::*;

use crate::bundle;
use crate::bundle::{Bundle, Payload};
use crate::canon;
use crate::diff;
use crate::diff::kev;
use crate::diff::oscal;
use crate::error::Error;
use crate::json;
use crate::json::{Doc, Json};
use crate::mcp;
use crate::obligations;
use crate::obligations::{Duty, Obligation, Party, Profile};
use crate::outside;
use crate::receipt;
use crate::receipt::{Decision, Inputs, Receipt, Sealed};
use crate::report;
use crate::severity::Severity;
use crate::sources;
use crate::table;
use crate::table::Table;
use crate::text;
use crate::validate::{Assessment, Report};

verus! {

/// Exit code used when a severity threshold trips. Distinct from 1, which is a
/// pipeline error.
pub const EXIT_THRESHOLD: i32 = 2;

/// The exit code of a run as loud as `severity`.
pub fn threshold_code(severity: Severity, fail_on: Option<Severity>) -> (code: i32)
    ensures
        code == (if report::fails(severity, fail_on) {
            EXIT_THRESHOLD
        } else {
            0i32
        }),
{
    if report::should_fail(severity, fail_on) {
        EXIT_THRESHOLD
    } else {
        0
    }
}

/// How far a sync goes.
#[derive(Debug, Clone, Copy, PartialEq, Eq, Structural)]
pub enum SyncStep {
    /// Nothing moved: report, and sign nothing.
    Report,
    /// Report what would be signed, and sign nothing.
    Rehearse,
    /// Write the snapshots and sign a version.
    Commit,
}

/// A sync commits when something moved or it is forced, unless it is a dry run.
pub fn sync_step(changed: bool, force: bool, dry_run: bool) -> (step: SyncStep)
    ensures
        step == SyncStep::Report <==> !changed && !force,
        step == SyncStep::Rehearse <==> (changed || force) && dry_run,
        step == SyncStep::Commit <==> (changed || force) && !dry_run,
{
    if !changed && !force {
        SyncStep::Report
    } else if dry_run {
        SyncStep::Rehearse
    } else {
        SyncStep::Commit
    }
}

// The data directory.

/// How a source's file on disk disagrees with the signed payload, if it does.
pub open spec fn file_mismatch(b: Payload, id: Seq<char>, raw: Seq<u8>) -> Option<Seq<char>> {
    match canon::canonical_document(raw) {
        Err(e) => Some(id + ": "@ + e),
        Ok(content) => match canon::document_digest(content) {
            Err(e) => Some(id + ": "@ + e),
            Ok(digest) => match table::lookup(b.sources, id) {
                None => Some(id + ": not in the signed payload"@),
                Some(record) => if digest == record.content_sha256 {
                    None
                } else {
                    Some(
                        id + ": signed "@ + record.content_sha256 + ", on disk "@ + digest,
                    )
                },
            },
        },
    }
}

pub fn snapshot_mismatch(bundle: &Bundle, id: &str, raw: &[u8]) -> (found: Option<String>)
    ensures
        text::opt_text(found) == file_mismatch(bundle@, id@, raw@),
{
    let mut line = id.to_owned();
    line.push_str(": ");
    let content = match canon::canonicalize(raw) {
        Ok(content) => content,
        Err(e) => {
            line.push_str(e.message.as_str());
            return Some(line);
        },
    };
    let digest = match canon::digest_value(&content) {
        Ok(digest) => digest,
        Err(e) => {
            line.push_str(e.message.as_str());
            return Some(line);
        },
    };
    proof {
        table::lemma_mapped_lookup(
            bundle.sources@,
            id@,
            |r: bundle::SourceRecord| r@,
        );
    }
    match bundle.sources.get(id) {
        Some(record) => {
            if text::same_text(digest.as_str(), record.content_sha256.as_str()) {
                return None;
            }
            let mut line = id.to_owned();
            line.push_str(": signed ");
            line.push_str(record.content_sha256.as_str());
            line.push_str(", on disk ");
            line.push_str(digest.as_str());
            Some(line)
        },
        None => {
            let mut line = id.to_owned();
            line.push_str(": not in the signed payload");
            Some(line)
        },
    }
}

// Obligations.

pub open spec fn rules_section(b: Payload) -> Result<Json, Seq<char>> {
    match table::lookup(b.content, sources::RULES@) {
        Some(rules) => Ok(rules),
        None => Err("chain payload has no rules section"@),
    }
}

/// The signed ruleset.
pub fn rules_of(bundle: &Bundle) -> (r: Result<&Doc, Error>)
    ensures
        match r {
            Ok(v) => rules_section(bundle@) == Ok::<Json, Seq<char>>(v@),
            Err(e) => rules_section(bundle@) == Err::<Json, Seq<char>>(e@),
        },
{
    match bundle.section(sources::RULES) {
        Some(rules) => Ok(rules),
        None => Err(Error::new("chain payload has no rules section")),
    }
}

/// The duties that bind an artifact.
pub open spec fn with_artifact(duties: Seq<Duty>) -> Seq<Duty>
    decreases duties.len(),
{
    if duties.len() == 0 {
        Seq::empty()
    } else {
        let rest = with_artifact(duties.drop_last());
        if duties.last().schema is Some {
            rest.push(duties.last())
        } else {
            rest
        }
    }
}

pub open spec fn listed(
    rules: Json,
    party: Party,
    force: Option<Seq<char>>,
    with_schema: bool,
) -> Seq<Duty> {
    let found = mcp::narrowed(obligations::selected(rules, party), force, false);
    if with_schema {
        with_artifact(found)
    } else {
        found
    }
}

fn keep_artifacts(list: &Vec<Obligation>) -> (out: Vec<Obligation>)
    ensures
        obligations::duties(out@) == with_artifact(obligations::duties(list@)),
{
    let ghost all = obligations::duties(list@);
    let mut out: Vec<Obligation> = Vec::new();
    let mut i: usize = 0;
    assert(obligations::duties(out@) =~= with_artifact(all.take(0)));
    while i < list.len()
        invariant
            i <= list@.len(),
            all == obligations::duties(list@),
            obligations::duties(out@) == with_artifact(all.take(i as int)),
        decreases list@.len() - i,
    {
        proof {
            assert(all.take(i + 1).drop_last() =~= all.take(i as int));
            assert(all.take(i + 1).last() == list@[i as int]@);
        }
        if list[i].schema.is_some() {
            let copy = list[i].duplicate();
            assert(obligations::duties(out@.push(copy)) =~= obligations::duties(out@).push(copy@));
            out.push(copy);
        }
        i += 1;
    }
    assert(all.take(all.len() as int) =~= all);
    out
}

/// The obligations of a profile, of one force or any, and all of them or those
/// that bind an artifact.
pub fn list_obligations(rules: &Doc, profile: &Profile, force: Option<&str>, with_schema: bool) -> (
out: Vec<Obligation>)
    ensures
        obligations::duties(out@) == listed(rules@, profile@, mcp::opt_str(force), with_schema),
{
    let all = obligations::select(rules, profile);
    let found = mcp::narrow(&all, force, false);
    if with_schema {
        keep_artifacts(&found)
    } else {
        found
    }
}

// Receipts.

pub open spec fn feed_signed(operator: u64) -> Seq<char> {
    "operator "@ + text::decimal(operator as nat)
        + " must differ from the feed author — a receipt signed by the feed attests to nothing"@
}

/// A receipt the feed signed about itself attests to nothing.
pub fn check_operator(operator: u64, feed_author: u64) -> (r: Result<(), Error>)
    ensures
        match r {
            Ok(_) => operator != feed_author,
            Err(e) => operator == feed_author && e@ == feed_signed(operator),
        },
{
    if operator != feed_author {
        return Ok(());
    }
    let mut message = "operator ".to_owned();
    message.push_str(text::decimal_text(operator).as_str());
    message.push_str(
        " must differ from the feed author — a receipt signed by the feed attests to nothing",
    );
    Err(Error { message })
}

/// Why no receipt is issued: the operator is the feed's own author, or the
/// chain that the receipt would cite is not valid.
pub open spec fn issue_refusal(
    operator: u64,
    feed_author: u64,
    chain_valid: bool,
) -> Option<Seq<char>> {
    if operator == feed_author {
        Some(feed_signed(operator))
    } else if !chain_valid {
        Some("refusing to issue a receipt against an invalid chain"@)
    } else {
        None
    }
}

pub fn check_issue(operator: u64, feed_author: u64, chain_valid: bool) -> (r: Result<(), Error>)
    ensures
        match r {
            Ok(_) => issue_refusal(operator, feed_author, chain_valid) is None,
            Err(e) => issue_refusal(operator, feed_author, chain_valid) == Some(e@),
        },
{
    match check_operator(operator, feed_author) {
        Ok(_) => if chain_valid {
            Ok(())
        } else {
            Err(
                Error {
                    message: "refusing to issue a receipt against an invalid chain".to_owned(),
                },
            )
        },
        Err(e) => Err(e),
    }
}

/// Issues a receipt against a chain that verified as `chain_valid` says. Where
/// nothing speaks against it, the receipt is what sealing the inputs gives.
pub fn issue(inputs: &Inputs, seed: &[u8], feed_author: u64, chain_valid: bool) -> (r: Result<
    Receipt,
    Error,
>)
    ensures
        match issue_refusal(inputs@.operator, feed_author, chain_valid) {
            Some(e) => receipt::sealed_or(r) == Err::<Sealed, Seq<char>>(e),
            None => receipt::created(inputs@, seed@, feed_author, receipt::sealed_or(r)),
        },
{
    match check_issue(inputs.operator, feed_author, chain_valid) {
        Ok(_) => receipt::create(inputs, seed, feed_author),
        Err(e) => Err(e),
    }
}

/// Issues a receipt for a validation. It attests to what the package was held
/// against, so only the operator's independence of the feed is asked for.
pub fn issue_validation(inputs: &Inputs, seed: &[u8], feed_author: u64) -> (r: Result<
    Receipt,
    Error,
>)
    ensures
        if inputs@.operator == feed_author {
            receipt::sealed_or(r) == Err::<Sealed, Seq<char>>(feed_signed(inputs@.operator))
        } else {
            receipt::created(inputs@, seed@, feed_author, receipt::sealed_or(r))
        },
{
    match check_operator(inputs.operator, feed_author) {
        Ok(_) => receipt::create(inputs, seed, feed_author),
        Err(e) => Err(e),
    }
}

pub open spec fn has_id(duties: Seq<Duty>, id: Seq<char>) -> bool {
    exists|i: int| 0 <= i < duties.len() && (#[trigger] duties[i]).id == id
}

/// The first of some ids that is no duty's.
pub open spec fn first_foreign(ids: Seq<Seq<char>>, duties: Seq<Duty>) -> Option<Seq<char>>
    decreases ids.len(),
{
    if ids.len() == 0 {
        None
    } else {
        match first_foreign(ids.drop_last(), duties) {
            Some(id) => Some(id),
            None => if has_id(duties, ids.last()) {
                None
            } else {
                Some(ids.last())
            },
        }
    }
}

/// The duties whose id is among some ids.
pub open spec fn of_ids(duties: Seq<Duty>, ids: Seq<Seq<char>>) -> Seq<Duty>
    decreases duties.len(),
{
    if duties.len() == 0 {
        Seq::empty()
    } else {
        let rest = of_ids(duties.drop_last(), ids);
        if ids.contains(duties.last().id) {
            rest.push(duties.last())
        } else {
            rest
        }
    }
}

/// The duties that a receipt covers: those asked for, or all. A receipt cannot
/// cite a rule that does not apply.
pub open spec fn covered(rules: Json, party: Party, wanted: Seq<Seq<char>>) -> Result<
    Seq<Duty>,
    Seq<char>,
> {
    let duties = obligations::selected(rules, party);
    if wanted.len() == 0 {
        Ok(duties)
    } else {
        match first_foreign(diff::sorted_names(wanted), duties) {
            Some(id) => Err(
                id + " is not an obligation for "@ + party.label_text()
                    + " — a receipt cannot cite a rule that does not apply"@,
            ),
            None => Ok(of_ids(duties, wanted)),
        }
    }
}

pub open spec fn duties_or(r: Result<Vec<Obligation>, Error>) -> Result<Seq<Duty>, Seq<char>> {
    match r {
        Ok(list) => Ok(obligations::duties(list@)),
        Err(e) => Err(e@),
    }
}

fn names_id(list: &Vec<Obligation>, id: &str) -> (yes: bool)
    ensures
        yes == has_id(obligations::duties(list@), id@),
{
    let ghost all = obligations::duties(list@);
    let mut i: usize = 0;
    while i < list.len()
        invariant
            i <= list@.len(),
            all == obligations::duties(list@),
            forall|j: int| 0 <= j < i ==> (#[trigger] all[j]).id != id@,
        decreases list@.len() - i,
    {
        assert(all[i as int] == list@[i as int]@);
        if text::same_text(list[i].id.as_str(), id) {
            return true;
        }
        i += 1;
    }
    false
}

fn find_foreign(names: &Table<()>, list: &Vec<Obligation>) -> (found: Option<String>)
    ensures
        text::opt_text(found) == first_foreign(table::keys(names@), obligations::duties(list@)),
{
    let ghost all = table::keys(names@);
    let ghost duties = obligations::duties(list@);
    let mut found: Option<String> = None;
    let mut i: usize = 0;
    while i < names.len()
        invariant
            i <= names@.len(),
            all == table::keys(names@),
            duties == obligations::duties(list@),
            text::opt_text(found) == first_foreign(all.take(i as int), duties),
        decreases names@.len() - i,
    {
        proof {
            assert(all.take(i + 1).drop_last() =~= all.take(i as int));
            assert(all.take(i + 1).last() == names@[i as int].0);
        }
        if found.is_none() && !names_id(list, names.key(i)) {
            found = Some(names.key(i).to_owned());
        }
        i += 1;
    }
    assert(all.take(all.len() as int) =~= all);
    found
}

fn keep_ids(list: &Vec<Obligation>, ids: &Vec<String>) -> (out: Vec<Obligation>)
    ensures
        obligations::duties(out@) == of_ids(obligations::duties(list@), text::texts(ids@)),
{
    let ghost all = obligations::duties(list@);
    let ghost names = text::texts(ids@);
    let mut out: Vec<Obligation> = Vec::new();
    let mut i: usize = 0;
    assert(obligations::duties(out@) =~= of_ids(all.take(0), names));
    while i < list.len()
        invariant
            i <= list@.len(),
            all == obligations::duties(list@),
            names == text::texts(ids@),
            obligations::duties(out@) == of_ids(all.take(i as int), names),
        decreases list@.len() - i,
    {
        proof {
            assert(all.take(i + 1).drop_last() =~= all.take(i as int));
            assert(all.take(i + 1).last() == list@[i as int]@);
        }
        if text::is_among(list[i].id.as_str(), ids) {
            let copy = list[i].duplicate();
            assert(obligations::duties(out@.push(copy)) =~= obligations::duties(out@).push(copy@));
            out.push(copy);
        }
        i += 1;
    }
    assert(all.take(all.len() as int) =~= all);
    out
}

/// The obligations that a receipt covers: those asked for, or the whole
/// profile's.
pub fn cited_obligations(rules: &Doc, profile: &Profile, wanted: &Vec<String>) -> (r: Result<
    Vec<Obligation>,
    Error,
>)
    ensures
        duties_or(r) == covered(rules@, profile@, text::texts(wanted@)),
{
    let all = obligations::select(rules, profile);
    assert(wanted@.len() == text::texts(wanted@).len());
    if wanted.len() == 0 {
        return Ok(all);
    }
    match find_foreign(&diff::name_table(wanted), &all) {
        Some(id) => {
            let mut message = id;
            message.push_str(" is not an obligation for ");
            message.push_str(profile.label().as_str());
            message.push_str(" — a receipt cannot cite a rule that does not apply");
            Err(Error { message })
        },
        None => Ok(keep_ids(&all, wanted)),
    }
}

// Receipts for validation verdicts.

pub open spec fn validation_text(r: Assessment) -> Seq<char> {
    "Validated "@ + r.package + " against "@ + r.schema + " — "@ + if r.valid {
        "conformant"@
    } else {
        "non-conformant"@
    }
}

/// What a validation receipt says was done.
pub fn validation_action(report: &Report) -> (action: String)
    ensures
        action@ == validation_text(report@),
{
    let mut action = "Validated ".to_owned();
    action.push_str(report.package.as_str());
    action.push_str(" against ");
    action.push_str(report.schema.as_str());
    action.push_str(" — ");
    action.push_str(
        if report.valid {
            "conformant"
        } else {
            "non-conformant"
        },
    );
    action
}

pub fn validation_decision(report: &Report) -> (decision: Decision)
    ensures
        decision == (if report@.valid {
            Decision::Satisfied
        } else {
            Decision::NotSatisfied
        }),
{
    if report.valid {
        Decision::Satisfied
    } else {
        Decision::NotSatisfied
    }
}

/// The rules a validation receipt cites: those that require the artifact, so
/// the verdict is a compliance statement rather than a syntax check.
pub fn validation_obligations(rules: Option<&Doc>, profile: &Profile, report: &Report) -> (out: Vec<
    Obligation,
>)
    ensures
        obligations::duties(out@) == (match rules {
            Some(rules) => of_ids(
                obligations::selected(rules@, profile@),
                report@.required_by,
            ),
            None => Seq::empty(),
        }),
{
    match rules {
        Some(rules) => keep_ids(&obligations::select(rules, profile), &report.required_by),
        None => {
            let none: Vec<Obligation> = Vec::new();
            assert(obligations::duties(none@) =~= Seq::<Duty>::empty());
            none
        },
    }
}

// Controls.

pub open spec fn prose_on(out: Seq<char>, parts: Seq<Json>) -> Seq<char>
    decreases parts.len(),
{
    if parts.len() == 0 {
        out
    } else {
        let before = prose_on(out, parts.drop_last());
        match parts.last().text_at("prose"@) {
            Some(prose) => before + prose + "\n\n"@,
            None => before,
        }
    }
}

pub open spec fn control_title(control: Json) -> Seq<char> {
    match control.text_at("title"@) {
        Some(title) => title,
        None => "(untitled)"@,
    }
}

pub open spec fn referenced(b: Payload, id: Seq<char>) -> Option<bool> {
    match table::lookup(b.content, sources::RULES@) {
        Some(rules) => Some(table::lookup(oscal::references(rules), id) is Some),
        None => None,
    }
}

pub open spec fn control_text(id: Seq<char>, control: Json, referenced: Option<bool>) -> Seq<char> {
    let head = "# "@ + id + " — "@ + control_title(control) + "\n\n"@;
    prose_on(
        if referenced == Some(true) {
            head + "FedRAMP references this control.\n\n"@
        } else {
            head
        },
        json::items_of(control, "parts"@),
    )
}

pub open spec fn opt_bool(b: Option<bool>) -> Json {
    match b {
        Some(b) => Json::Bool(b),
        None => Json::Null,
    }
}

/// FedRAMP amends 800-53 controls without restating them; this joins the two
/// halves from the same signed payload.
pub open spec fn control_output(b: Payload, requested: Seq<char>, as_json: bool) -> Result<
    Seq<char>,
    Seq<char>,
> {
    let id = oscal::normal_id(requested);
    match table::lookup(b.content, sources::OSCAL@) {
        None => Err("chain has no oscal section; re-sync to add it"@),
        Some(catalog) => match table::lookup(oscal::controls_of(catalog), id) {
            None => Err("no 800-53 control `"@ + id + "`"@),
            Some(control) => if as_json {
                Ok(
                    outside::json_pretty(
                        json::no_members().with("id"@, Json::Text(id)).with(
                            "control"@,
                            control,
                        ).with("referenced_by_fedramp"@, opt_bool(referenced(b, id))),
                    ) + "\n"@,
                )
            } else {
                Ok(control_text(id, control, referenced(b, id)))
            },
        },
    }
}

fn push_prose(out: &mut String, parts: &Vec<Doc>)
    ensures
        final(out)@ == prose_on(old(out)@, json::jsons(parts@)),
{
    let ghost start = out@;
    let ghost all = json::jsons(parts@);
    let mut i: usize = 0;
    while i < parts.len()
        invariant
            i <= parts@.len(),
            all == json::jsons(parts@),
            out@ == prose_on(start, all.take(i as int)),
        decreases parts@.len() - i,
    {
        proof {
            assert(all.take(i + 1).drop_last() =~= all.take(i as int));
            assert(all.take(i + 1).last() == parts@[i as int]@);
        }
        match json::text_member(&parts[i], "prose") {
            Some(prose) => {
                out.push_str(prose);
                out.push_str("\n\n");
            },
            None => {},
        }
        i += 1;
    }
    assert(all.take(all.len() as int) =~= all);
}

fn is_referenced(bundle: &Bundle, id: &str) -> (r: Option<bool>)
    ensures
        r == referenced(bundle@, id@),
{
    match bundle.section(sources::RULES) {
        Some(rules) => Some(oscal::referenced_controls(rules).contains_key(id)),
        None => None,
    }
}

fn control_markdown(id: &str, control: &Doc, referenced: Option<bool>) -> (out: String)
    ensures
        out@ == control_text(id@, control@, referenced),
{
    let mut out = "# ".to_owned();
    out.push_str(id);
    out.push_str(" — ");
    match json::text_member(control, "title") {
        Some(title) => {
            out.push_str(title);
        },
        None => {
            out.push_str("(untitled)");
        },
    }
    out.push_str("\n\n");
    match referenced {
        Some(true) => {
            out.push_str("FedRAMP references this control.\n\n");
        },
        _ => {},
    }
    match json::array_member(control, "parts") {
        Some(parts) => {
            push_prose(&mut out, parts);
        },
        None => {},
    }
    out
}

/// What the `control` command prints.
pub fn control_page(bundle: &Bundle, requested: &str, as_json: bool) -> (r: Result<String, Error>)
    ensures
        canon::text_or(r) == control_output(bundle@, requested@, as_json),
{
    let catalog = match bundle.section(sources::OSCAL) {
        Some(catalog) => catalog,
        None => {
            return Err(Error::new("chain has no oscal section; re-sync to add it"));
        },
    };
    let id = oscal::normalise_id(requested);
    let controls = oscal::flatten(catalog);
    let control = match controls.member(id.as_str()) {
        Some(control) => control,
        None => {
            return Err(Error::about("no 800-53 control `", id.as_str(), "`"));
        },
    };
    let known = is_referenced(bundle, id.as_str());
    if !as_json {
        return Ok(control_markdown(id.as_str(), control, known));
    }
    let mut members = bundle::empty_object();
    members.set("id", json::text_value(id.as_str()));
    members.set("control", control.duplicate());
    members.set(
        "referenced_by_fedramp",
        match known {
            Some(b) => Doc::Bool(b),
            None => Doc::Null,
        },
    );
    let mut out = outside::pretty_text(&Doc::Object(members));
    out.push_str("\n");
    Ok(out)
}

// Known exploited vulnerabilities.

pub open spec fn governed(b: Payload) -> Seq<Seq<char>> {
    match table::lookup(b.content, sources::RULES@) {
        Some(rules) => mcp::governing_ids(rules),
        None => Seq::empty(),
    }
}

pub open spec fn governed_text(ids: Seq<Seq<char>>) -> Seq<char> {
    if ids.len() == 0 {
        "—"@
    } else {
        text::join(ids, ", "@)
    }
}

pub open spec fn field_of(entry: Json, key: Seq<char>) -> Seq<char> {
    match entry.text_at(key) {
        Some(s) => s,
        None => "—"@,
    }
}

pub open spec fn cve_text(cve: Seq<char>, entry: Json, ids: Seq<Seq<char>>) -> Seq<char> {
    "# "@ + cve + " — known exploited\n\n"@ + field_of(entry, "vendorProject"@) + " "@ + field_of(
        entry,
        "product"@,
    ) + "\n"@ + field_of(entry, "vulnerabilityName"@) + "\n\ndue: "@ + field_of(entry, "dueDate"@)
        + "\nransomware: "@ + field_of(entry, "knownRansomwareCampaignUse"@)
        + "\nrequired action: "@ + field_of(entry, "requiredAction"@) + "\n\ngoverned by: "@
        + governed_text(ids) + "\n"@
}

pub open spec fn cve_json(cve: Seq<char>, entry: Json, ids: Seq<Seq<char>>) -> Json {
    json::no_members().with("cve"@, Json::Text(cve)).with("entry"@, entry).with(
        "governed_by"@,
        mcp::texts_array(ids),
    )
}

/// Whether an entry is due on or before a date.
pub open spec fn due_by(entry: Json, cutoff: Seq<char>) -> bool {
    match entry.text_at("dueDate"@) {
        Some(due) => !text::text_lt(cutoff, due),
        None => false,
    }
}

pub open spec fn due_count(entries: Seq<(Seq<char>, Json)>, cutoff: Seq<char>) -> nat
    decreases entries.len(),
{
    if entries.len() == 0 {
        0
    } else {
        due_count(entries.drop_last(), cutoff) + if due_by(entries.last().1, cutoff) {
            1nat
        } else {
            0nat
        }
    }
}

pub open spec fn kev_summary(
    entries: Seq<(Seq<char>, Json)>,
    ids: Seq<Seq<char>>,
    due_before: Option<Seq<char>>,
) -> Seq<char> {
    let head = text::decimal(entries.len())
        + " known exploited vulnerabilities in the signed catalog\ngoverned by: "@
        + governed_text(ids) + "\n"@;
    match due_before {
        Some(cutoff) => head + text::decimal(due_count(entries, cutoff)) + " due on or before "@
            + cutoff + "\n"@,
        None => head,
    }
}

/// FedRAMP requires action on known exploited vulnerabilities but does not
/// carry the list; this joins CISA's catalog to the rules that govern it.
pub open spec fn kev_output(
    b: Payload,
    cve: Option<Seq<char>>,
    due_before: Option<Seq<char>>,
    as_json: bool,
) -> Result<Seq<char>, Seq<char>> {
    match table::lookup(b.content, sources::KEV@) {
        None => Err("chain has no kev section; re-sync to add it"@),
        Some(catalog) => {
            let entries = kev::vulnerabilities(catalog);
            match cve {
                None => Ok(kev_summary(entries, governed(b), due_before)),
                Some(cve) => match table::lookup(entries, text::ascii_upper(cve)) {
                    None => Err(cve + " is not in the signed KEV catalog"@),
                    Some(entry) => if as_json {
                        Ok(
                            outside::json_pretty(
                                cve_json(text::ascii_upper(cve), entry, governed(b)),
                            ) + "\n"@,
                        )
                    } else {
                        Ok(cve_text(text::ascii_upper(cve), entry, governed(b)))
                    },
                },
            }
        },
    }
}

fn governing(bundle: &Bundle) -> (ids: Vec<String>)
    ensures
        text::texts(ids@) == governed(bundle@),
{
    match bundle.section(sources::RULES) {
        Some(rules) => kev::governing_rules(rules),
        None => {
            let none: Vec<String> = Vec::new();
            assert(text::texts(none@) =~= Seq::<Seq<char>>::empty());
            none
        },
    }
}

fn push_governing(out: &mut String, ids: &Vec<String>)
    ensures
        final(out)@ == old(out)@ + governed_text(text::texts(ids@)),
{
    assert(ids@.len() == text::texts(ids@).len());
    if ids.len() == 0 {
        out.push_str("—");
    } else {
        out.push_str(text::join_texts(ids, ", ").as_str());
    }
}

fn push_field(out: &mut String, entry: &Doc, key: &str)
    ensures
        final(out)@ == old(out)@ + field_of(entry@, key@),
{
    match json::text_member(entry, key) {
        Some(s) => {
            out.push_str(s);
        },
        None => {
            out.push_str("—");
        },
    }
}

fn cve_markdown(cve: &str, entry: &Doc, ids: &Vec<String>) -> (out: String)
    ensures
        out@ == cve_text(cve@, entry@, text::texts(ids@)),
{
    let mut out = "# ".to_owned();
    out.push_str(cve);
    out.push_str(" — known exploited\n\n");
    push_field(&mut out, entry, "vendorProject");
    out.push_str(" ");
    push_field(&mut out, entry, "product");
    out.push_str("\n");
    push_field(&mut out, entry, "vulnerabilityName");
    out.push_str("\n\ndue: ");
    push_field(&mut out, entry, "dueDate");
    out.push_str("\nransomware: ");
    push_field(&mut out, entry, "knownRansomwareCampaignUse");
    out.push_str("\nrequired action: ");
    push_field(&mut out, entry, "requiredAction");
    out.push_str("\n\ngoverned by: ");
    push_governing(&mut out, ids);
    out.push_str("\n");
    out
}

fn count_due(entries: &Table<Doc>, cutoff: &str) -> (n: usize)
    ensures
        n == due_count(entries.members(), cutoff@),
{
    broadcast use json::lemma_members;

    let ghost all = entries.members();
    let mut n: usize = 0;
    let mut i: usize = 0;
    while i < entries.len()
        invariant
            n <= i <= entries@.len(),
            all == entries.members(),
            all == json::deep(entries@),
            n == due_count(all.take(i as int), cutoff@),
        decreases entries@.len() - i,
    {
        proof {
            assert(all.take(i + 1).drop_last() =~= all.take(i as int));
            assert(all.take(i + 1).last() == (entries@[i as int].0, entries@[i as int].1@));
        }
        match json::text_member(entries.value(i), "dueDate") {
            Some(due) => {
                if !text::text_before(cutoff, due) {
                    n += 1;
                }
            },
            None => {},
        }
        i += 1;
    }
    assert(all.take(all.len() as int) =~= all);
    n
}

/// What the `kev` command prints.
pub fn kev_page(bundle: &Bundle, cve: Option<&str>, due_before: Option<&str>, as_json: bool) -> (r:
    Result<String, Error>)
    ensures
        canon::text_or(r) == kev_output(
            bundle@,
            mcp::opt_str(cve),
            mcp::opt_str(due_before),
            as_json,
        ),
{
    broadcast use json::lemma_members;

    let catalog = match bundle.section(sources::KEV) {
        Some(catalog) => catalog,
        None => {
            return Err(Error::new("chain has no kev section; re-sync to add it"));
        },
    };
    let entries = kev::flatten(catalog);
    let ids = governing(bundle);
    match cve {
        Some(cve) => {
            let id = text::to_ascii_upper(cve);
            let entry = match entries.member(id.as_str()) {
                Some(entry) => entry,
                None => {
                    return Err(Error::because(cve, " is not in the signed KEV catalog"));
                },
            };
            if !as_json {
                return Ok(cve_markdown(id.as_str(), entry, &ids));
            }
            let mut members = bundle::empty_object();
            members.set("cve", json::text_value(id.as_str()));
            members.set("entry", entry.duplicate());
            members.set("governed_by", mcp::text_array(&ids));
            let mut out = outside::pretty_text(&Doc::Object(members));
            out.push_str("\n");
            Ok(out)
        },
        None => {
            assert(entries@.len() == entries.members().len());
            let mut out = text::decimal_text(entries.len() as u64);
            out.push_str(" known exploited vulnerabilities in the signed catalog\ngoverned by: ");
            push_governing(&mut out, &ids);
            out.push_str("\n");
            match due_before {
                Some(cutoff) => {
                    let n: usize = count_due(&entries, cutoff);
                    out.push_str(text::decimal_text(n as u64).as_str());
                    out.push_str(" due on or before ");
                    out.push_str(cutoff);
                    out.push_str("\n");
                },
                None => {},
            }
            Ok(out)
        },
    }
}

// Laws.

proof fn lemma_of_ids_owed(duties: Seq<Duty>, ids: Seq<Seq<char>>, all: Seq<Duty>)
    requires
        forall|i: int| 0 <= i < duties.len() ==> all.contains(#[trigger] duties[i]),
    ensures
        forall|i: int|
            0 <= i < of_ids(duties, ids).len() ==> all.contains(#[trigger] of_ids(duties, ids)[i]),
    decreases duties.len(),
{
    if duties.len() > 0 {
        let rest = duties.drop_last();
        assert forall|i: int| 0 <= i < rest.len() implies all.contains(#[trigger] rest[i]) by {
            assert(rest[i] == duties[i]);
        }
        lemma_of_ids_owed(rest, ids, all);
        assert(all.contains(duties[duties.len() - 1]));
        let kept = of_ids(duties, ids);
        assert forall|i: int| 0 <= i < kept.len() implies all.contains(#[trigger] kept[i]) by {
            if i < of_ids(rest, ids).len() {
                assert(kept[i] == of_ids(rest, ids)[i]);
            }
        }
    }
}

/// What a receipt is issued for is owed: the signed ruleset has every cited
/// obligation for the profile, with the force cited.
pub proof fn law_cited_obligations_are_owed(rules: Json, party: Party, wanted: Seq<Seq<char>>)
    requires
        covered(rules, party, wanted) is Ok,
    ensures
        receipt::reproduced(
            receipt::cited(covered(rules, party, wanted)->Ok_0),
            obligations::selected(rules, party),
        ),
{
    let all = obligations::selected(rules, party);
    let found = covered(rules, party, wanted)->Ok_0;
    assert forall|i: int| 0 <= i < all.len() implies all.contains(#[trigger] all[i]) by {}
    lemma_of_ids_owed(all, wanted, all);
    let cited = receipt::cited(found);
    assert forall|i: int| 0 <= i < cited.len() implies receipt::owed(#[trigger] cited[i], all) by {
        assert(all.contains(found[i]));
        let j = choose|j: int| 0 <= j < all.len() && all[j] == found[i];
        assert(all[j].id == cited[i].id && all[j].force == cited[i].force);
    }
}

proof fn lemma_first_foreign(ids: Seq<Seq<char>>, duties: Seq<Duty>, i: int)
    requires
        first_foreign(ids, duties) is None,
        0 <= i < ids.len(),
    ensures
        has_id(duties, ids[i]),
    decreases ids.len(),
{
    if i < ids.len() - 1 {
        lemma_first_foreign(ids.drop_last(), duties, i);
    }
}

proof fn lemma_name_listed(names: Seq<Seq<char>>, i: int) -> (j: int)
    requires
        0 <= i < names.len(),
    ensures
        0 <= j < diff::sorted_names(names).len(),
        diff::sorted_names(names)[j] == names[i],
    decreases names.len(),
{
    diff::lemma_name_set_ordered(names.drop_last());
    let rest = diff::name_set(names.drop_last());
    table::lemma_put_lookup(rest, names.last(), (), names[i]);
    if i < names.len() - 1 {
        let k = lemma_name_listed(names.drop_last(), i);
        table::lemma_lookup_entry(rest, k);
    }
    table::lemma_lookup_index(diff::name_set(names), names[i])
}

/// A receipt cannot cite a rule that does not apply.
pub proof fn law_foreign_rules_are_refused(
    rules: Json,
    party: Party,
    wanted: Seq<Seq<char>>,
    i: int,
)
    requires
        0 <= i < wanted.len(),
        !has_id(obligations::selected(rules, party), wanted[i]),
    ensures
        covered(rules, party, wanted) is Err,
{
    let duties = obligations::selected(rules, party);
    let j = lemma_name_listed(wanted, i);
    if first_foreign(diff::sorted_names(wanted), duties) is None {
        lemma_first_foreign(diff::sorted_names(wanted), duties, j);
    }
}

// What a command says.

/// A file on disk matches the signed payload exactly where its canonical document
/// has the content digest on record for its source.
pub proof fn law_file_matches_by_its_content_digest(b: Payload, id: Seq<char>, raw: Seq<u8>)
    ensures
        file_mismatch(b, id, raw) is None <==> (canon::canonical_document(raw) matches Ok(content)
            && (table::lookup(b.sources, id) matches Some(record) && canon::document_digest(content)
            == Ok::<Seq<char>, Seq<char>>(record.content_sha256))),
        file_mismatch(b, id, raw) matches Some(note) ==> text::begins(note, id + ": "@),
        canon::canonical_document(raw) matches Ok(content) ==> (canon::document_digest(content)
            matches Ok(digest) ==> (table::lookup(b.sources, id) matches Some(record) ==> (digest
            != record.content_sha256 ==> file_mismatch(b, id, raw) == Some(
            id + ": signed "@ + record.content_sha256 + ", on disk "@ + digest,
        )))),
{
    reveal_strlit(": ");
    reveal_strlit(": signed ");
    reveal_strlit("signed ");
    reveal_strlit(": not in the signed payload");
    reveal_strlit("not in the signed payload");
    let head = id + ": "@;
    text::lemma_begins_self(head);
    match canon::canonical_document(raw) {
        Err(e) => {
            text::lemma_begins_more(head, e, head);
        },
        Ok(content) => match canon::document_digest(content) {
            Err(e) => {
                text::lemma_begins_more(head, e, head);
            },
            Ok(digest) => match table::lookup(b.sources, id) {
                None => {
                    let rest = "not in the signed payload"@;
                    assert(id + ": not in the signed payload"@ =~= head + rest);
                    text::lemma_begins_more(head, rest, head);
                },
                Some(record) => {
                    let rest = "signed "@ + record.content_sha256 + ", on disk "@ + digest;
                    assert(id + ": signed "@ + record.content_sha256 + ", on disk "@ + digest
                        =~= head + rest);
                    text::lemma_begins_more(head, rest, head);
                },
            },
        },
    }
}

proof fn lemma_with_artifact(duties: Seq<Duty>)
    ensures
        with_artifact(duties) == duties.filter(|d: Duty| d.schema is Some),
    decreases duties.len(),
{
    reveal(Seq::filter);
    if duties.len() > 0 {
        lemma_with_artifact(duties.drop_last());
    } else {
        assert(with_artifact(duties) =~= duties.filter(|d: Duty| d.schema is Some));
    }
}

/// The obligations listed are the party's, of the force asked for in any case,
/// and only those with a schema where that is asked for, in their order.
pub proof fn law_listing_keeps_what_is_asked_for(
    rules: Json,
    party: Party,
    force: Option<Seq<char>>,
    d: Duty,
)
    ensures
        listed(rules, party, None, false) == obligations::selected(rules, party),
        listed(rules, party, force, true) == listed(rules, party, force, false).filter(
            |d: Duty| d.schema is Some,
        ),
        listed(rules, party, force, false).contains(d) <==> obligations::selected(
            rules,
            party,
        ).contains(d) && (force matches Some(f) ==> text::ascii_lower(d.force)
            == text::ascii_lower(f)),
{
    let all = obligations::selected(rules, party);
    lemma_with_artifact(mcp::narrowed(all, force, false));
    lemma_narrowed_contains(all, force, d);
    lemma_narrowed_all(all);
}

proof fn lemma_narrowed_all(duties: Seq<Duty>)
    ensures
        mcp::narrowed(duties, None, false) == duties,
    decreases duties.len(),
{
    if duties.len() > 0 {
        lemma_narrowed_all(duties.drop_last());
        assert(duties.drop_last().push(duties.last()) =~= duties);
    } else {
        assert(mcp::narrowed(duties, None, false) =~= duties);
    }
}

proof fn lemma_narrowed_contains(duties: Seq<Duty>, force: Option<Seq<char>>, d: Duty)
    ensures
        mcp::narrowed(duties, force, false).contains(d) <==> duties.contains(d) && (force matches Some(
            f,
        ) ==> text::ascii_lower(d.force) == text::ascii_lower(f)),
    decreases duties.len(),
{
    if duties.len() > 0 {
        let front = duties.drop_last();
        lemma_narrowed_contains(front, force, d);
        let rest = mcp::narrowed(front, force, false);
        let now = mcp::narrowed(duties, force, false);
        if duties.contains(d) && d != duties.last() {
            let k = choose|k: int| 0 <= k < duties.len() && duties[k] == d;
            assert(front[k] == d);
        }
        if front.contains(d) {
            let k = choose|k: int| 0 <= k < front.len() && front[k] == d;
            assert(duties[k] == d);
        }
        assert(duties[duties.len() - 1] == duties.last());
        if rest.contains(d) {
            let k = choose|k: int| 0 <= k < rest.len() && rest[k] == d;
            assert(now[k] == d);
        }
        if now.contains(d) {
            let k = choose|k: int| 0 <= k < now.len() && now[k] == d;
            if k < rest.len() {
                assert(rest[k] == d);
            }
        }
        if now.len() > rest.len() {
            assert(now[now.len() - 1] == duties.last());
        }
    }
}

/// A receipt is issued exactly where its operator is not the feed's author and
/// the chain is valid; where both speak against it, the operator is named.
pub proof fn law_receipt_needs_another_signer_and_a_valid_chain(
    operator: u64,
    feed_author: u64,
    chain_valid: bool,
)
    ensures
        issue_refusal(operator, feed_author, chain_valid) is None <==> operator != feed_author
            && chain_valid,
        operator == feed_author ==> (issue_refusal(operator, feed_author, chain_valid) matches Some(
            e,
        ) && text::begins(e, "operator "@ + text::decimal(operator as nat) + " must differ"@)),
{
    if operator == feed_author {
        reveal_strlit(" must differ");
        reveal_strlit(
            " must differ from the feed author — a receipt signed by the feed attests to nothing",
        );
        let n = text::decimal(operator as nat);
        let part = "operator "@ + n + " must differ"@;
        assert(feed_signed(operator).subrange(0, part.len() as int) =~= part);
    }
}

proof fn lemma_of_ids(duties: Seq<Duty>, ids: Seq<Seq<char>>)
    ensures
        of_ids(duties, ids) == duties.filter(|d: Duty| ids.contains(d.id)),
    decreases duties.len(),
{
    reveal(Seq::filter);
    if duties.len() > 0 {
        lemma_of_ids(duties.drop_last(), ids);
    } else {
        assert(of_ids(duties, ids) =~= duties.filter(|d: Duty| ids.contains(d.id)));
    }
}

proof fn lemma_none_foreign(ids: Seq<Seq<char>>, duties: Seq<Duty>)
    ensures
        first_foreign(ids, duties) is None <==> forall|i: int|
            0 <= i < ids.len() ==> has_id(duties, #[trigger] ids[i]),
        first_foreign(ids, duties) matches Some(id) ==> ids.contains(id) && !has_id(duties, id),
    decreases ids.len(),
{
    if ids.len() > 0 {
        let front = ids.drop_last();
        lemma_none_foreign(front, duties);
        if let Some(id) = first_foreign(front, duties) {
            let k = choose|k: int| 0 <= k < front.len() && front[k] == id;
            assert(ids[k] == id);
        } else {
            assert forall|i: int| 0 <= i < front.len() implies has_id(
                duties,
                #[trigger] ids[i],
            ) by {
                assert(front[i] == ids[i]);
            }
            assert(ids[ids.len() - 1] == ids.last());
        }
    }
}

/// A receipt cites all of the party's obligations where none is asked for, and
/// otherwise exactly those asked for; it is refused exactly where one of these is
/// not an obligation of the party, which the refusal names.
pub proof fn law_receipt_cites_what_is_asked_for(
    rules: Json,
    party: Party,
    wanted: Seq<Seq<char>>,
)
    ensures
        wanted.len() == 0 ==> covered(rules, party, wanted) == Ok::<Seq<Duty>, Seq<char>>(
            obligations::selected(rules, party),
        ),
        wanted.len() > 0 ==> (covered(rules, party, wanted) is Ok <==> forall|i: int|
            0 <= i < wanted.len() ==> has_id(
                obligations::selected(rules, party),
                #[trigger] wanted[i],
            )),
        wanted.len() > 0 ==> (covered(rules, party, wanted) matches Ok(found) ==> found
            == obligations::selected(rules, party).filter(|d: Duty| wanted.contains(d.id))),
        covered(rules, party, wanted) matches Err(e) ==> exists|i: int|
            0 <= i < wanted.len() && !has_id(
                obligations::selected(rules, party),
                #[trigger] wanted[i],
            ) && text::begins(e, wanted[i] + " is not an obligation for "@ + party.label_text()),
{
    let duties = obligations::selected(rules, party);
    let names = diff::sorted_names(wanted);
    lemma_of_ids(duties, wanted);
    lemma_none_foreign(names, duties);
    diff::law_sorted_names_are_the_names(wanted);
    if wanted.len() > 0 {
        if let Some(id) = first_foreign(names, duties) {
            assert(names.contains(id));
            let i = choose|i: int| 0 <= i < wanted.len() && wanted[i] == id;
            let head = id + " is not an obligation for "@ + party.label_text();
            text::lemma_begins_self(head);
            text::lemma_begins_more(
                head,
                " — a receipt cannot cite a rule that does not apply"@,
                head,
            );
            assert(!has_id(duties, wanted[i]));
        } else {
            assert forall|i: int| 0 <= i < wanted.len() implies has_id(
                duties,
                #[trigger] wanted[i],
            ) by {
                assert(wanted.contains(wanted[i]));
                assert(names.contains(wanted[i]));
                let k = choose|k: int| 0 <= k < names.len() && names[k] == wanted[i];
                assert(has_id(duties, names[k]));
            }
        }
    }
}

/// A validation's action names the package, the schema and the outcome.
pub proof fn law_validation_action_says_the_outcome(r: Assessment)
    ensures
        r.valid ==> validation_text(r) == "Validated "@ + r.package + " against "@ + r.schema
            + " — conformant"@,
        !r.valid ==> validation_text(r) == "Validated "@ + r.package + " against "@ + r.schema
            + " — non-conformant"@,
{
    reveal_strlit(" — ");
    reveal_strlit("conformant");
    reveal_strlit("non-conformant");
    reveal_strlit(" — conformant");
    reveal_strlit(" — non-conformant");
    assert(" — conformant"@ =~= " — "@ + "conformant"@);
    assert(" — non-conformant"@ =~= " — "@ + "non-conformant"@);
    let head = "Validated "@ + r.package + " against "@ + r.schema;
    assert(r.valid ==> validation_text(r) =~= head + " — conformant"@);
    assert(!r.valid ==> validation_text(r) =~= head + " — non-conformant"@);
}

proof fn lemma_prose(out: Seq<char>, parts: Seq<Json>, i: int)
    ensures
        text::begins(prose_on(out, parts), out),
        0 <= i < parts.len() ==> (parts[i].get("prose"@) matches Some(Json::Text(prose))
            ==> text::holds(prose_on(out, parts), prose + "\n\n"@)),
    decreases parts.len(),
{
    text::lemma_begins_self(out);
    if parts.len() > 0 {
        let front = parts.drop_last();
        let last = parts[parts.len() - 1];
        lemma_prose(out, front, i);
        let before = prose_on(out, front);
        let page = prose_on(out, parts);
        text::lemma_begins_self(before);
        if let Some(prose) = last.text_at("prose"@) {
            assert(page =~= before + (prose + "\n\n"@));
            text::lemma_begins_more(before, prose + "\n\n"@, before);
            text::lemma_begins_more(before, prose + "\n\n"@, out);
            text::lemma_holds_last(before, prose + "\n\n"@);
        }
        if 0 <= i < front.len() {
            assert(front[i] == parts[i]);
            if let Some(Json::Text(prose)) = parts[i].get("prose"@) {
                text::lemma_holds_begun(page, before, prose + "\n\n"@);
            }
        }
    }
}

/// A control's page opens with its id and title, says that the rules refer to it
/// exactly where they do, and has the prose of each of its parts.
pub proof fn law_control_page_shows_the_control(
    id: Seq<char>,
    control: Json,
    known: Option<bool>,
    i: int,
)
    ensures
        control.get("title"@) matches Some(Json::Text(title)) ==> text::begins(
            control_text(id, control, known),
            "# "@ + id + " — "@ + title + "\n\n"@,
        ),
        known == Some(true) ==> text::begins(
            control_text(id, control, known),
            "# "@ + id + " — "@ + control_title(control) + "\n\n"@
                + "FedRAMP references this control.\n\n"@,
        ),
        known != Some(true) ==> control_text(id, control, known) == control_text(id, control, None),
        control.get("parts"@) matches Some(Json::Array(parts)) ==> (0 <= i < parts.len() ==> (
        parts[i].get("prose"@) matches Some(Json::Text(prose)) ==> text::holds(
            control_text(id, control, known),
            prose + "\n\n"@,
        ))),
{
    let head = "# "@ + id + " — "@ + control_title(control) + "\n\n"@;
    let note = "FedRAMP references this control.\n\n"@;
    let top = if known == Some(true) {
        head + note
    } else {
        head
    };
    let parts = json::items_of(control, "parts"@);
    lemma_prose(top, parts, i);
    text::lemma_begins_self(head);
    text::lemma_begins_more(head, note, head);
    text::lemma_begins_through(control_text(id, control, known), top, head);
}

/// A control is looked up in the catalog under the normal form of the id asked
/// for; whether the rules refer to it is told where there are rules.
pub proof fn law_control_is_looked_up_by_its_id(
    b: Payload,
    requested: Seq<char>,
    catalog: Json,
    as_json: bool,
)
    requires
        table::lookup(b.content, "oscal"@) == Some(catalog),
    ensures
        ({
            let id = oscal::normal_id(requested);
            let control = table::lookup(oscal::controls_of(catalog), id);
            &&& control_output(b, requested, as_json) is Ok <==> control is Some
            &&& control matches Some(control) ==> control_output(b, requested, false) == Ok::<
                Seq<char>,
                Seq<char>,
            >(
                control_text(
                    id,
                    control,
                    match table::lookup(b.content, "rules"@) {
                        Some(rules) => Some(
                            table::lookup(oscal::references(rules), id) is Some,
                        ),
                        None => None,
                    },
                ),
            )
        }),
{
}

/// The vulnerabilities due by a date are those whose own due date is not after it.
pub proof fn law_due_entries_are_counted(entries: Seq<(Seq<char>, Json)>, cutoff: Seq<char>)
    ensures
        due_count(entries, cutoff) == entries.filter(
            |e: (Seq<char>, Json)|
                e.1.get("dueDate"@) matches Some(Json::Text(due)) && (due == cutoff
                    || text::text_lt(due, cutoff)),
        ).len(),
    decreases entries.len(),
{
    reveal(Seq::filter);
    if entries.len() > 0 {
        law_due_entries_are_counted(entries.drop_last(), cutoff);
        if let Some(Json::Text(due)) = entries.last().1.get("dueDate"@) {
            text::lemma_text_lt_total(due, cutoff);
            text::lemma_text_lt_irreflexive(due);
            if text::text_lt(due, cutoff) && text::text_lt(cutoff, due) {
                text::lemma_text_lt_transitive(due, cutoff, due);
            }
        }
    }
}

/// The summary of the list says how many vulnerabilities there are and, for a
/// date, how many are due by it.
pub proof fn law_kev_summary_counts_the_entries(
    entries: Seq<(Seq<char>, Json)>,
    ids: Seq<Seq<char>>,
    cutoff: Seq<char>,
)
    ensures
        text::begins(
            kev_summary(entries, ids, None),
            text::decimal(entries.len()) + " known exploited vulnerabilities"@,
        ),
        kev_summary(entries, ids, Some(cutoff)) == kev_summary(entries, ids, None) + text::decimal(
            entries.filter(
                |e: (Seq<char>, Json)|
                    e.1.get("dueDate"@) matches Some(Json::Text(due)) && (due == cutoff
                        || text::text_lt(due, cutoff)),
            ).len(),
        ) + " due on or before "@ + cutoff + "\n"@,
{
    law_due_entries_are_counted(entries, cutoff);
    reveal_strlit(" known exploited vulnerabilities");
    reveal_strlit(" known exploited vulnerabilities in the signed catalog\ngoverned by: ");
    let part = text::decimal(entries.len()) + " known exploited vulnerabilities"@;
    let page = kev_summary(entries, ids, None);
    assert(page.subrange(0, part.len() as int) =~= part);
}

/// A vulnerability's page has its vendor and product, its name, its due date, its
/// use by ransomware, the action required and the governing rules, each under
/// its own label.
pub proof fn law_cve_page_shows_the_entry(cve: Seq<char>, entry: Json, ids: Seq<Seq<char>>)
    ensures
        ({
            let page = cve_text(cve, entry, ids);
            &&& text::begins(page, "# "@ + cve + " — known exploited\n\n"@)
            &&& text::holds(
                page,
                field_of(entry, "vendorProject"@) + " "@ + field_of(entry, "product"@) + "\n"@
                    + field_of(entry, "vulnerabilityName"@) + "\n\ndue: "@,
            )
            &&& text::holds(page, "\n\ndue: "@ + field_of(entry, "dueDate"@) + "\nransomware: "@)
            &&& text::holds(
                page,
                "\nransomware: "@ + field_of(entry, "knownRansomwareCampaignUse"@)
                    + "\nrequired action: "@,
            )
            &&& text::holds(
                page,
                "\nrequired action: "@ + field_of(entry, "requiredAction"@)
                    + "\n\ngoverned by: "@,
            )
            &&& ids.len() > 0 ==> text::holds(
                page,
                "\n\ngoverned by: "@ + text::join(ids, ", "@) + "\n"@,
            )
        }),
{
    let t = "# "@ + cve + " — known exploited\n\n"@;
    let p = field_of(entry, "vendorProject"@) + " "@ + field_of(entry, "product"@) + "\n"@
        + field_of(entry, "vulnerabilityName"@);
    let l1 = "\n\ndue: "@;
    let d = field_of(entry, "dueDate"@);
    let l2 = "\nransomware: "@;
    let r = field_of(entry, "knownRansomwareCampaignUse"@);
    let l3 = "\nrequired action: "@;
    let a = field_of(entry, "requiredAction"@);
    let l4 = "\n\ngoverned by: "@;
    let g = governed_text(ids);
    let nl = "\n"@;
    let page = cve_text(cve, entry, ids);
    assert(page =~= t + p + l1 + d + l2 + r + l3 + a + l4 + g + nl);
    lemma_labels(t, p, l1, d, l2, r, l3, a, l4, g, nl);
    assert(p + l1 =~= field_of(entry, "vendorProject"@) + " "@ + field_of(entry, "product"@)
        + "\n"@ + field_of(entry, "vulnerabilityName"@) + "\n\ndue: "@);
}

proof fn lemma_labels(
    t: Seq<char>,
    p: Seq<char>,
    l1: Seq<char>,
    d: Seq<char>,
    l2: Seq<char>,
    r: Seq<char>,
    l3: Seq<char>,
    a: Seq<char>,
    l4: Seq<char>,
    g: Seq<char>,
    nl: Seq<char>,
)
    ensures
        ({
            let page = t + p + l1 + d + l2 + r + l3 + a + l4 + g + nl;
            &&& text::begins(page, t)
            &&& text::holds(page, p + l1)
            &&& text::holds(page, l1 + d + l2)
            &&& text::holds(page, l2 + r + l3)
            &&& text::holds(page, l3 + a + l4)
            &&& text::holds(page, l4 + g + nl)
        }),
{
    let s1 = t + p + l1;
    let s2 = s1 + d + l2;
    let s3 = s2 + r + l3;
    let s4 = s3 + a + l4;
    let s5 = s4 + g + nl;
    assert(s1 =~= t + (p + l1));
    text::lemma_holds_last(t, p + l1);
    lemma_joined_three(t + p, l1, d, l2);
    lemma_joined_three(s1 + d, l2, r, l3);
    lemma_joined_three(s2 + r, l3, a, l4);
    lemma_joined_three(s3 + a, l4, g, nl);
    lemma_begins_two(s4, g, nl);
    lemma_begins_two(s3, a, l4);
    lemma_begins_two(s2, r, l3);
    lemma_begins_two(s1, d, l2);
    lemma_begins_two(t, p, l1);
    text::lemma_begins_through(s5, s4, s3);
    text::lemma_begins_through(s5, s3, s2);
    text::lemma_begins_through(s5, s2, s1);
    text::lemma_begins_through(s5, s1, t);
    text::lemma_holds_begun(s5, s1, p + l1);
    text::lemma_holds_begun(s5, s2, l1 + d + l2);
    text::lemma_holds_begun(s5, s3, l2 + r + l3);
    text::lemma_holds_begun(s5, s4, l3 + a + l4);
}

proof fn lemma_joined_three(before: Seq<char>, x: Seq<char>, y: Seq<char>, z: Seq<char>)
    ensures
        text::holds(before + x + y + z, x + y + z),
{
    assert(before + x + y + z =~= before + (x + y + z));
    text::lemma_holds_last(before, x + y + z);
}

proof fn lemma_begins_two(before: Seq<char>, x: Seq<char>, y: Seq<char>)
    ensures
        text::begins(before + x + y, before),
{
    text::lemma_begins_self(before);
    text::lemma_begins_more(before, x, before);
    text::lemma_begins_more(before + x, y, before);
}

/// A vulnerability is looked up in the list by its id in upper case, and one that
/// is not there is refused; what is shown of it is its own entry.
pub proof fn law_cve_is_looked_up_by_its_id(
    b: Payload,
    cve: Seq<char>,
    due_before: Option<Seq<char>>,
    as_json: bool,
    catalog: Json,
)
    requires
        table::lookup(b.content, "kev"@) == Some(catalog),
    ensures
        ({
            let entry = table::lookup(kev::vulnerabilities(catalog), text::ascii_upper(cve));
            &&& kev_output(b, Some(cve), due_before, as_json) is Ok <==> entry is Some
            &&& entry matches Some(entry) ==> kev_output(b, Some(cve), due_before, false) == Ok::<
                Seq<char>,
                Seq<char>,
            >(cve_text(text::ascii_upper(cve), entry, governed(b)))
            &&& kev_output(b, None, due_before, as_json) == Ok::<Seq<char>, Seq<char>>(
                kev_summary(kev::vulnerabilities(catalog), governed(b), due_before),
            )
        }),
{
}

/// As a document, a control comes with its normal id and whether the rules refer
/// to it.
pub proof fn law_control_document_has_the_control(
    b: Payload,
    requested: Seq<char>,
    catalog: Json,
    control: Json,
)
    requires
        table::lookup(b.content, "oscal"@) == Some(catalog),
        table::lookup(oscal::controls_of(catalog), oscal::normal_id(requested)) == Some(control),
    ensures
        exists|v: Json|
            control_output(b, requested, true) == Ok::<Seq<char>, Seq<char>>(
                #[trigger] outside::json_pretty(v) + "\n"@,
            ) && v.get("id"@) == Some(Json::Text(oscal::normal_id(requested))) && v.get("control"@)
                == Some(control) && v.get("referenced_by_fedramp"@) == Some(
                match table::lookup(b.content, "rules"@) {
                    Some(rules) => Json::Bool(
                        table::lookup(oscal::references(rules), oscal::normal_id(requested)) is Some,
                    ),
                    None => Json::Null,
                },
            ),
{
    reveal_strlit("id");
    reveal_strlit("control");
    reveal_strlit("referenced_by_fedramp");
    assert("id"@.len() == 2 && "control"@.len() == 7 && "referenced_by_fedramp"@.len() == 21);
    let id = oscal::normal_id(requested);
    let known = opt_bool(referenced(b, id));
    let v0 = json::no_members();
    let v1 = v0.with("id"@, Json::Text(id));
    let v2 = v1.with("control"@, control);
    let v = v2.with("referenced_by_fedramp"@, known);
    json::lemma_with(v0, "id"@, Json::Text(id));
    json::lemma_with(v1, "control"@, control);
    json::lemma_with(v2, "referenced_by_fedramp"@, known);
    assert(control_output(b, requested, true) == Ok::<Seq<char>, Seq<char>>(
        outside::json_pretty(v) + "\n"@,
    ));
}

/// As a document, a vulnerability comes with its own entry and the governing rules.
pub proof fn law_cve_document_has_the_entry(cve: Seq<char>, entry: Json, ids: Seq<Seq<char>>, i: int)
    ensures
        cve_json(cve, entry, ids).get("cve"@) == Some(Json::Text(cve)),
        cve_json(cve, entry, ids).get("entry"@) == Some(entry),
        cve_json(cve, entry, ids).get("governed_by"@) matches Some(Json::Array(list)) && list.len()
            == ids.len() && (0 <= i < ids.len() ==> list[i] == Json::Text(ids[i])),
{
    reveal_strlit("cve");
    reveal_strlit("entry");
    reveal_strlit("governed_by");
    assert("cve"@.len() == 3 && "entry"@.len() == 5 && "governed_by"@.len() == 11);
    let v0 = json::no_members();
    let v1 = v0.with("cve"@, Json::Text(cve));
    let v2 = v1.with("entry"@, entry);
    json::lemma_with(v0, "cve"@, Json::Text(cve));
    json::lemma_with(v1, "entry"@, entry);
    json::lemma_with(v2, "governed_by"@, mcp::texts_array(ids));
}

} // verus!
