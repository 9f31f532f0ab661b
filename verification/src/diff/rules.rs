//! Rules diff: flatten the four sections to leaf ids, then compare.
//!
//! Leaf ids are the FedRAMP identifiers themselves (`VDR-FRP-XYZ`,
//! `KSI-CED-RAT`, `AC-06-01`), so a report names rules rather than JSON paths.

use vstd::prelude::*;

use crate::canon;
use crate::diff;
use crate::diff::{Delta, Edit, FieldChange, FieldMove, Highlight, Modified, Movement, Notice};
use crate::json;
use crate::json::{Doc, Json};
use crate::severity::Severity;
use crate::sources;
use crate::table;
use crate::table::Table;
use crate::text;

verus! {

/// Fields whose movement changes what a provider must do.
pub open spec fn highlight_fields() -> Seq<Seq<char>> {
    seq!["force"@, "status"@, "effective"@]
}

// Flattening.

/// The members `levels` below `entries`, each under its path from `prefix`.
pub open spec fn spread(
    levels: nat,
    prefix: Seq<char>,
    entries: Seq<(Seq<char>, Json)>,
    leaves: Seq<(Seq<char>, Json)>,
) -> Seq<(Seq<char>, Json)>
    decreases levels, entries.len(),
{
    if entries.len() == 0 {
        leaves
    } else {
        let before = spread(levels, prefix, entries.drop_last(), leaves);
        let (name, value) = entries.last();
        let path = prefix + "/"@ + name;
        if levels == 0 {
            table::put(before, path, value)
        } else {
            spread((levels - 1) as nat, path, json::members_of(Some(value)), before)
        }
    }
}

fn spread_members(levels: u8, prefix: &str, value: Option<&Doc>, leaves: &mut Table<Doc>)
    ensures
        final(leaves).members() == spread(
            levels as nat,
            prefix@,
            json::members_of(json::opt_json(value)),
            old(leaves).members(),
        ),
    decreases levels,
{
    broadcast use json::lemma_members;

    let ghost start = leaves.members();
    match json::members_in(value) {
        Some(entries) => {
            let ghost all = entries.members();
            let mut i: usize = 0;
            while i < entries.len()
                invariant
                    i <= entries@.len(),
                    all == entries.members(),
                    all == json::deep(entries@),
                    leaves.members() == spread(levels as nat, prefix@, all.take(i as int), start),
                decreases entries@.len() - i,
            {
                let mut path = prefix.to_owned();
                path.push_str("/");
                path.push_str(entries.key(i));
                proof {
                    assert(all.take(i + 1).drop_last() =~= all.take(i as int));
                    assert(all.take(i + 1).last() == (
                        entries@[i as int].0,
                        entries@[i as int].1@,
                    ));
                }
                if levels == 0 {
                    leaves.set(path.as_str(), entries.value(i).duplicate());
                } else {
                    spread_members(levels - 1, path.as_str(), Some(entries.value(i)), leaves);
                }
                i += 1;
            }
            assert(all.take(all.len() as int) =~= all);
        },
        None => {},
    }
}

/// Family headers carry `status` and `effective`, which decide whether a rule
/// is live. They are leaves in their own right.
pub open spec fn with_info(
    prefix: Seq<char>,
    body: Json,
    leaves: Seq<(Seq<char>, Json)>,
) -> Seq<(Seq<char>, Json)> {
    match body.get("info"@) {
        Some(info) => table::put(leaves, prefix + "/info"@, info),
        None => leaves,
    }
}

fn insert_info(prefix: &str, body: &Doc, leaves: &mut Table<Doc>)
    ensures
        final(leaves).members() == with_info(prefix@, body@, old(leaves).members()),
{
    match body.get("info") {
        Some(info) => {
            let mut path = prefix.to_owned();
            path.push_str("/info");
            leaves.set(path.as_str(), info.duplicate());
        },
        None => {},
    }
}

/// `FRD.data.{group}.{FRD-XXX}`
pub open spec fn frd_leaves(
    body: Json,
    leaves: Seq<(Seq<char>, Json)>,
) -> Seq<(Seq<char>, Json)> {
    spread(1, "FRD"@, json::members_of(body.get("data"@)), with_info("FRD"@, body, leaves))
}

/// `FRR.{family}.data.{applicability}.{class}.{RULE-ID}`
///
/// Applicability (`all` / `20x` / `rev5`) is part of leaf identity: the same
/// rule id under a different applicability is a different obligation.
pub open spec fn frr_leaves(
    families: Seq<(Seq<char>, Json)>,
    leaves: Seq<(Seq<char>, Json)>,
) -> Seq<(Seq<char>, Json)>
    decreases families.len(),
{
    if families.len() == 0 {
        leaves
    } else {
        let before = frr_leaves(families.drop_last(), leaves);
        let (family, body) = families.last();
        let prefix = "FRR/"@ + family;
        spread(2, prefix, json::members_of(body.get("data"@)), with_info(prefix, body, before))
    }
}

/// `KSI.{family}.indicators.{KSI-XXX-YYY}`
pub open spec fn ksi_leaves(
    families: Seq<(Seq<char>, Json)>,
    leaves: Seq<(Seq<char>, Json)>,
) -> Seq<(Seq<char>, Json)>
    decreases families.len(),
{
    if families.len() == 0 {
        leaves
    } else {
        let before = ksi_leaves(families.drop_last(), leaves);
        let (family, body) = families.last();
        let prefix = "KSI/"@ + family;
        let header = match body {
            Json::Object(m) => Json::Object(table::drop_key(m, "indicators"@)),
            other => other,
        };
        spread(
            0,
            prefix,
            json::members_of(body.get("indicators"@)),
            table::put(before, prefix + "/info"@, header),
        )
    }
}

/// `CTL.{family}.{CONTROL-ID}`
pub open spec fn ctl_leaves(
    body: Json,
    leaves: Seq<(Seq<char>, Json)>,
) -> Seq<(Seq<char>, Json)> {
    spread(1, "CTL"@, json::members_of(Some(body)), leaves)
}

fn flatten_frd(body: &Doc, leaves: &mut Table<Doc>)
    ensures
        final(leaves).members() == frd_leaves(body@, old(leaves).members()),
{
    insert_info("FRD", body, leaves);
    spread_members(1, "FRD", body.get("data"), leaves);
}

fn flatten_frr(body: &Doc, leaves: &mut Table<Doc>)
    ensures
        final(leaves).members() == frr_leaves(
            json::members_of(Some(body@)),
            old(leaves).members(),
        ),
{
    broadcast use json::lemma_members;

    let ghost start = leaves.members();
    match json::members_in(Some(body)) {
        Some(families) => {
            let ghost all = families.members();
            let mut i: usize = 0;
            while i < families.len()
                invariant
                    i <= families@.len(),
                    all == families.members(),
                    all == json::deep(families@),
                    leaves.members() == frr_leaves(all.take(i as int), start),
                decreases families@.len() - i,
            {
                let mut prefix = "FRR/".to_owned();
                prefix.push_str(families.key(i));
                let family = families.value(i);
                insert_info(prefix.as_str(), family, leaves);
                spread_members(2, prefix.as_str(), family.get("data"), leaves);
                proof {
                    assert(all.take(i + 1).drop_last() =~= all.take(i as int));
                    assert(all.take(i + 1).last() == (families@[i as int].0, family@));
                }
                i += 1;
            }
            assert(all.take(all.len() as int) =~= all);
        },
        None => {},
    }
}

fn flatten_ksi(body: &Doc, leaves: &mut Table<Doc>)
    ensures
        final(leaves).members() == ksi_leaves(
            json::members_of(Some(body@)),
            old(leaves).members(),
        ),
{
    broadcast use json::lemma_members;

    let ghost start = leaves.members();
    match json::members_in(Some(body)) {
        Some(families) => {
            let ghost all = families.members();
            let mut i: usize = 0;
            while i < families.len()
                invariant
                    i <= families@.len(),
                    all == families.members(),
                    all == json::deep(families@),
                    leaves.members() == ksi_leaves(all.take(i as int), start),
                decreases families@.len() - i,
            {
                let mut prefix = "KSI/".to_owned();
                prefix.push_str(families.key(i));
                let family = families.value(i);
                let header = match family {
                    Doc::Object(members) => {
                        let mut rest = members.duplicate();
                        proof {
                            json::lemma_members(rest);
                        }
                        let ghost whole = rest@;
                        rest.remove("indicators");
                        proof {
                            json::lemma_members(*members);
                            json::lemma_members(rest);
                            json::lemma_deep_drop(whole, "indicators"@);
                        }
                        Doc::Object(rest)
                    },
                    other => other.duplicate(),
                };
                let mut path = prefix.clone();
                path.push_str("/info");
                leaves.set(path.as_str(), header);
                spread_members(0, prefix.as_str(), family.get("indicators"), leaves);
                proof {
                    assert(all.take(i + 1).drop_last() =~= all.take(i as int));
                    assert(all.take(i + 1).last() == (families@[i as int].0, family@));
                }
                i += 1;
            }
            assert(all.take(all.len() as int) =~= all);
        },
        None => {},
    }
}

fn flatten_ctl(body: &Doc, leaves: &mut Table<Doc>)
    ensures
        final(leaves).members() == ctl_leaves(body@, old(leaves).members()),
{
    spread_members(1, "CTL", Some(body), leaves);
}

pub open spec fn unknown_note(section: Seq<char>) -> Seq<char> {
    "unknown top-level section `"@ + section + "` — diffed as an opaque subtree"@
}

pub open spec fn missing_note(section: Seq<char>) -> Seq<char> {
    "section `"@ + section + "` disappeared from upstream"@
}

/// The leaves of the sections, and a note for each that is not known.
pub open spec fn sections(root: Seq<(Seq<char>, Json)>) -> (
    Seq<(Seq<char>, Json)>,
    Seq<Seq<char>>,
)
    decreases root.len(),
{
    if root.len() == 0 {
        (Seq::empty(), Seq::empty())
    } else {
        let (leaves, drift) = sections(root.drop_last());
        let (section, body) = root.last();
        if section == "info"@ {
            (leaves, drift)
        } else if section == "FRD"@ {
            (frd_leaves(body, leaves), drift)
        } else if section == "FRR"@ {
            (frr_leaves(json::members_of(Some(body)), leaves), drift)
        } else if section == "KSI"@ {
            (ksi_leaves(json::members_of(Some(body)), leaves), drift)
        } else if section == "CTL"@ {
            (ctl_leaves(body, leaves), drift)
        } else {
            (table::put(leaves, section, body), drift.push(unknown_note(section)))
        }
    }
}

pub open spec fn noting(
    root: Seq<(Seq<char>, Json)>,
    section: Seq<char>,
    drift: Seq<Seq<char>>,
) -> Seq<Seq<char>> {
    if table::lookup(root, section) is None {
        drift.push(missing_note(section))
    } else {
        drift
    }
}

/// `id -> leaf`, plus notes for any section shaped unexpectedly.
pub open spec fn flattened(doc: Json) -> (Seq<(Seq<char>, Json)>, Seq<Seq<char>>) {
    match doc.object() {
        None => (Seq::empty(), seq!["rules document is not an object"@]),
        Some(root) => {
            let (leaves, drift) = sections(root);
            let drift = noting(root, "FRD"@, drift);
            let drift = noting(root, "FRR"@, drift);
            let drift = noting(root, "KSI"@, drift);
            (leaves, noting(root, "CTL"@, drift))
        },
    }
}

fn note(drift: &mut Vec<String>, head: &str, section: &str, tail: &str)
    ensures
        text::texts(final(drift)@) == text::texts(old(drift)@).push(head@ + section@ + tail@),
{
    let mut line = head.to_owned();
    line.push_str(section);
    line.push_str(tail);
    proof {
        text::lemma_texts_push(drift@, line);
    }
    drift.push(line);
}

fn note_missing(root: &Table<Doc>, section: &str, drift: &mut Vec<String>)
    ensures
        text::texts(final(drift)@) == noting(root.members(), section@, text::texts(old(drift)@)),
{
    if root.member(section).is_none() {
        note(drift, "section `", section, "` disappeared from upstream");
    }
}

/// Flatten to `id -> leaf`, plus notes for any section shaped unexpectedly.
pub fn flatten(doc: &Doc) -> (r: (Table<Doc>, Vec<String>))
    ensures
        (r.0.members(), text::texts(r.1@)) == flattened(doc@),
{
    broadcast use json::lemma_members;

    let mut leaves: Table<Doc> = Table::new();
    let mut drift: Vec<String> = Vec::new();
    assert(leaves.members() =~= Seq::<(Seq<char>, Json)>::empty());
    assert(text::texts(drift@) =~= Seq::<Seq<char>>::empty());
    match doc.as_object() {
        None => {
            let line = "rules document is not an object".to_owned();
            proof {
                text::lemma_texts_push(drift@, line);
                assert(text::texts(drift@.push(line)) =~= seq![line@]);
            }
            drift.push(line);
        },
        Some(root) => {
            let ghost all = root.members();
            let mut i: usize = 0;
            while i < root.len()
                invariant
                    i <= root@.len(),
                    all == root.members(),
                    all == json::deep(root@),
                    (leaves.members(), text::texts(drift@)) == sections(all.take(i as int)),
                decreases root@.len() - i,
            {
                let section = root.key(i);
                let body = root.value(i);
                proof {
                    assert(all.take(i + 1).drop_last() =~= all.take(i as int));
                    assert(all.take(i + 1).last() == (section@, body@));
                }
                if text::same_text(section, "info") {
                } else if text::same_text(section, "FRD") {
                    flatten_frd(body, &mut leaves);
                } else if text::same_text(section, "FRR") {
                    flatten_frr(body, &mut leaves);
                } else if text::same_text(section, "KSI") {
                    flatten_ksi(body, &mut leaves);
                } else if text::same_text(section, "CTL") {
                    flatten_ctl(body, &mut leaves);
                } else {
                    note(
                        &mut drift,
                        "unknown top-level section `",
                        section,
                        "` — diffed as an opaque subtree",
                    );
                    leaves.set(section, body.duplicate());
                }
                i += 1;
            }
            assert(all.take(all.len() as int) =~= all);
            note_missing(root, "FRD", &mut drift);
            note_missing(root, "FRR", &mut drift);
            note_missing(root, "KSI", &mut drift);
            note_missing(root, "CTL", &mut drift);
        },
    }
    (leaves, drift)
}

// Obligations that differ by class.

/// The force that a rule has for one class.
pub open spec fn class_force(leaf: Json, class: Seq<char>) -> Option<Seq<char>> {
    match leaf.get2("varies_by_class"@, class) {
        Some(variant) => variant.text_at("force"@),
        None => None,
    }
}

pub open spec fn or_absent(force: Option<Seq<char>>) -> Seq<char> {
    match force {
        Some(force) => force,
        None => "(absent)"@,
    }
}

/// One notice for each class whose force moved.
pub open spec fn class_notices(
    id: Seq<char>,
    before: Json,
    after: Json,
    classes: Seq<Seq<char>>,
) -> Seq<Notice>
    decreases classes.len(),
{
    if classes.len() == 0 {
        Seq::empty()
    } else {
        let rest = class_notices(id, before, after, classes.drop_last());
        let class = classes.last();
        let from = class_force(before, class);
        let to = class_force(after, class);
        if from == to {
            rest
        } else {
            rest.push(
                Notice {
                    kind: "force"@,
                    id: id + " (class "@ + class + ")"@,
                    field: "varies_by_class.force"@,
                    from: or_absent(from),
                    to: or_absent(to),
                },
            )
        }
    }
}

pub open spec fn touches(fields: Seq<FieldMove>, name: Seq<char>) -> bool {
    exists|i: int| 0 <= i < fields.len() && (#[trigger] fields[i]).field == name
}

pub open spec fn classes_of(before: Json, after: Json) -> Seq<Seq<char>> {
    diff::sorted_names(
        table::keys(json::members_of(before.get("varies_by_class"@))) + table::keys(
            json::members_of(after.get("varies_by_class"@)),
        ),
    )
}

/// Some rules carry a different obligation per certification class under
/// `varies_by_class`. A `SHOULD → MUST` in there is as binding as one at the
/// top level, so it is promoted the same way.
pub open spec fn force_notices(
    entries: Seq<Edit>,
    before: Seq<(Seq<char>, Json)>,
    after: Seq<(Seq<char>, Json)>,
) -> Seq<Notice>
    decreases entries.len(),
{
    if entries.len() == 0 {
        Seq::empty()
    } else {
        let rest = force_notices(entries.drop_last(), before, after);
        let entry = entries.last();
        match (table::lookup(before, entry.id), table::lookup(after, entry.id)) {
            (Some(old_leaf), Some(new_leaf)) => if touches(entry.fields, "varies_by_class"@) {
                rest + class_notices(entry.id, old_leaf, new_leaf, classes_of(old_leaf, new_leaf))
            } else {
                rest
            },
            _ => rest,
        }
    }
}

fn force_of<'a>(leaf: &'a Doc, class: &str) -> (force: Option<&'a str>)
    ensures
        match force {
            Some(f) => class_force(leaf@, class@) == Some(f@),
            None => class_force(leaf@, class@) is None,
        },
{
    match leaf.get("varies_by_class") {
        Some(classes) => match classes.get(class) {
            Some(variant) => json::text_member(variant, "force"),
            None => None,
        },
        None => None,
    }
}

fn has_field(fields: &Vec<FieldChange>, name: &str) -> (yes: bool)
    ensures
        yes == touches(diff::moves(fields@), name@),
{
    let mut i: usize = 0;
    while i < fields.len()
        invariant
            i <= fields@.len(),
            forall|j: int| 0 <= j < i ==> (#[trigger] diff::moves(fields@)[j]).field != name@,
        decreases fields@.len() - i,
    {
        if text::same_text(fields[i].field.as_str(), name) {
            assert(diff::moves(fields@)[i as int].field == name@);
            return true;
        }
        i += 1;
    }
    false
}

fn highlight_classes(id: &str, before: &Doc, after: &Doc, highlights: &mut Vec<Highlight>)
    ensures
        diff::notices(final(highlights)@) == diff::notices(old(highlights)@) + class_notices(
            id@,
            before@,
            after@,
            classes_of(before@, after@),
        ),
{
    let ghost start = diff::notices(highlights@);
    let names = diff::all_keys(&json::value_or_null(before.get("varies_by_class")), &json::value_or_null(after.get("varies_by_class")));
    let ghost all = table::keys(names@);
    let mut i: usize = 0;
    assert(start + class_notices(id@, before@, after@, all.take(0)) =~= start);
    while i < names.len()
        invariant
            i <= names@.len(),
            all == table::keys(names@),
            diff::notices(highlights@) == start + class_notices(
                id@,
                before@,
                after@,
                all.take(i as int),
            ),
        decreases names@.len() - i,
    {
        let class = names.key(i);
        let from = force_of(before, class);
        let to = force_of(after, class);
        let ghost done = class_notices(id@, before@, after@, all.take(i as int));
        proof {
            assert(all.take(i + 1).drop_last() =~= all.take(i as int));
            assert(all.take(i + 1).last() == class@);
        }
        let same = match (from, to) {
            (Some(a), Some(b)) => text::same_text(a, b),
            (None, None) => true,
            _ => false,
        };
        if !same {
            let mut label = id.to_owned();
            label.push_str(" (class ");
            label.push_str(class);
            label.push_str(")");
            let highlight = Highlight {
                kind: "force".to_owned(),
                id: label,
                field: "varies_by_class.force".to_owned(),
                from: match from {
                    Some(from) => from.to_owned(),
                    None => "(absent)".to_owned(),
                },
                to: match to {
                    Some(to) => to.to_owned(),
                    None => "(absent)".to_owned(),
                },
            };
            proof {
                assert(diff::notices(highlights@.push(highlight)) =~= diff::notices(
                    highlights@,
                ).push(highlight@));
                assert(start + done.push(highlight@) =~= (start + done).push(highlight@));
            }
            highlights.push(highlight);
        }
        i += 1;
    }
    assert(all.take(all.len() as int) =~= all);
}

fn highlight_per_class_force(
    before: &Table<Doc>,
    after: &Table<Doc>,
    modified: &Vec<Modified>,
    highlights: &mut Vec<Highlight>,
)
    ensures
        diff::notices(final(highlights)@) == diff::notices(old(highlights)@) + force_notices(
            diff::edits(modified@),
            before.members(),
            after.members(),
        ),
{
    let ghost start = diff::notices(highlights@);
    let ghost all = diff::edits(modified@);
    let ghost b = before.members();
    let ghost a = after.members();
    let mut i: usize = 0;
    assert(start + force_notices(all.take(0), b, a) =~= start);
    while i < modified.len()
        invariant
            i <= modified@.len(),
            all == diff::edits(modified@),
            b == before.members(),
            a == after.members(),
            diff::notices(highlights@) == start + force_notices(all.take(i as int), b, a),
        decreases modified@.len() - i,
    {
        let entry = &modified[i];
        let ghost done = force_notices(all.take(i as int), b, a);
        proof {
            assert(all.take(i + 1).drop_last() =~= all.take(i as int));
            assert(all.take(i + 1).last() == entry@);
        }
        if has_field(&entry.fields, "varies_by_class") {
            match (before.member(entry.id.as_str()), after.member(entry.id.as_str())) {
                (Some(old_leaf), Some(new_leaf)) => {
                    highlight_classes(entry.id.as_str(), old_leaf, new_leaf, highlights);
                    proof {
                        let more = class_notices(
                            entry@.id,
                            old_leaf@,
                            new_leaf@,
                            classes_of(old_leaf@, new_leaf@),
                        );
                        assert(start + (done + more) =~= start + done + more);
                    }
                },
                _ => {},
            }
        }
        i += 1;
    }
    assert(all.take(all.len() as int) =~= all);
}

// The diff.

/// What moved between two rules documents.
pub open spec fn movement(before: Json, after: Json) -> Movement {
    let (old_leaves, _) = flattened(before);
    let (new_leaves, drift) = flattened(after);
    let found = diff::compared(
        Movement { drift, ..diff::still(sources::RULES@) },
        old_leaves,
        new_leaves,
        highlight_fields(),
        "rule"@,
    );
    let info_moved = !json::agree_optional(before.get("info"@), after.get("info"@));
    Movement {
        highlights: found.highlights + force_notices(found.modified, old_leaves, new_leaves),
        changed: !found.quiet() || info_moved,
        severity: if !found.quiet() {
            Severity::Major
        } else if info_moved {
            Severity::Metadata
        } else {
            Severity::Unchanged
        },
        counts: if info_moved {
            table::put(found.counts, "info_fields_moved"@, 1)
        } else {
            found.counts
        },
        ..found
    }
}

pub fn diff(before: &Doc, after: &Doc) -> (delta: Delta)
    ensures
        delta@ == movement(before@, after@),
{
    let mut delta = Delta::new(sources::RULES);
    let (old_leaves, _old_drift) = flatten(before);
    let (new_leaves, drift) = flatten(after);
    delta.drift = drift;
    let fields = ["force", "status", "effective"];
    assert(json::strs(fields@) =~= highlight_fields());
    diff::compare_maps(&old_leaves, &new_leaves, &mut delta, &fields, "rule");
    highlight_per_class_force(&old_leaves, &new_leaves, &delta.modified, &mut delta.highlights);
    let info_moved = !json::same_optional(before.get("info"), after.get("info"));
    let empty = delta.is_empty();
    delta.changed = !empty || info_moved;
    delta.severity = if !empty {
        Severity::Major
    } else if info_moved {
        Severity::Metadata
    } else {
        Severity::Unchanged
    };
    if info_moved {
        delta.counts.insert("info_fields_moved".to_owned(), 1);
    }
    delta
}

// Laws.

proof fn lemma_spread_ordered(
    levels: nat,
    prefix: Seq<char>,
    entries: Seq<(Seq<char>, Json)>,
    leaves: Seq<(Seq<char>, Json)>,
)
    requires
        table::ordered(leaves),
    ensures
        table::ordered(spread(levels, prefix, entries, leaves)),
    decreases levels, entries.len(),
{
    if entries.len() > 0 {
        lemma_spread_ordered(levels, prefix, entries.drop_last(), leaves);
        let before = spread(levels, prefix, entries.drop_last(), leaves);
        let (name, value) = entries.last();
        let path = prefix + "/"@ + name;
        if levels == 0 {
            table::lemma_put_ordered(before, path, value);
        } else {
            lemma_spread_ordered(
                (levels - 1) as nat,
                path,
                json::members_of(Some(value)),
                before,
            );
        }
    }
}

proof fn lemma_with_info_ordered(prefix: Seq<char>, body: Json, leaves: Seq<(Seq<char>, Json)>)
    requires
        table::ordered(leaves),
    ensures
        table::ordered(with_info(prefix, body, leaves)),
{
    if body.get("info"@) is Some {
        table::lemma_put_ordered(leaves, prefix + "/info"@, body.get("info"@)->Some_0);
    }
}

proof fn lemma_frr_ordered(families: Seq<(Seq<char>, Json)>, leaves: Seq<(Seq<char>, Json)>)
    requires
        table::ordered(leaves),
    ensures
        table::ordered(frr_leaves(families, leaves)),
    decreases families.len(),
{
    if families.len() > 0 {
        lemma_frr_ordered(families.drop_last(), leaves);
        let before = frr_leaves(families.drop_last(), leaves);
        let (family, body) = families.last();
        let prefix = "FRR/"@ + family;
        lemma_with_info_ordered(prefix, body, before);
        lemma_spread_ordered(
            2,
            prefix,
            json::members_of(body.get("data"@)),
            with_info(prefix, body, before),
        );
    }
}

proof fn lemma_ksi_ordered(families: Seq<(Seq<char>, Json)>, leaves: Seq<(Seq<char>, Json)>)
    requires
        table::ordered(leaves),
    ensures
        table::ordered(ksi_leaves(families, leaves)),
    decreases families.len(),
{
    if families.len() > 0 {
        lemma_ksi_ordered(families.drop_last(), leaves);
        let before = ksi_leaves(families.drop_last(), leaves);
        let (family, body) = families.last();
        let prefix = "KSI/"@ + family;
        let header = match body {
            Json::Object(m) => Json::Object(table::drop_key(m, "indicators"@)),
            other => other,
        };
        table::lemma_put_ordered(before, prefix + "/info"@, header);
        lemma_spread_ordered(
            0,
            prefix,
            json::members_of(body.get("indicators"@)),
            table::put(before, prefix + "/info"@, header),
        );
    }
}

proof fn lemma_sections_ordered(root: Seq<(Seq<char>, Json)>)
    ensures
        table::ordered(sections(root).0),
    decreases root.len(),
{
    if root.len() > 0 {
        lemma_sections_ordered(root.drop_last());
        let leaves = sections(root.drop_last()).0;
        let (section, body) = root.last();
        lemma_with_info_ordered("FRD"@, body, leaves);
        lemma_spread_ordered(
            1,
            "FRD"@,
            json::members_of(body.get("data"@)),
            with_info("FRD"@, body, leaves),
        );
        lemma_frr_ordered(json::members_of(Some(body)), leaves);
        lemma_ksi_ordered(json::members_of(Some(body)), leaves);
        lemma_spread_ordered(1, "CTL"@, json::members_of(Some(body)), leaves);
        table::lemma_put_ordered(leaves, section, body);
    }
}

/// Leaves come in the order of their ids, each id once.
pub proof fn law_leaves_are_ordered(doc: Json)
    ensures
        table::ordered(flattened(doc).0),
{
    match doc.object() {
        Some(root) => {
            lemma_sections_ordered(root);
        },
        None => {},
    }
}

/// A document diffed against itself has not changed.
pub proof fn law_same_document_is_unchanged(doc: Json)
    ensures
        !movement(doc, doc).changed,
        movement(doc, doc).severity == Severity::Unchanged,
        movement(doc, doc).quiet(),
        movement(doc, doc).highlights.len() == 0,
{
    broadcast use json::lemma_agree_self;

    let (leaves, drift) = flattened(doc);
    let start = Movement { drift, ..diff::still(sources::RULES@) };
    law_leaves_are_ordered(doc);
    diff::law_same_maps_compare_equal(start, leaves, highlight_fields(), "rule"@);
}

/// Where only `info` moved, the change is one of metadata and nothing else.
pub proof fn law_info_alone_is_metadata(before: Json, after: Json)
    requires
        flattened(before).0 == flattened(after).0,
        !json::agree_optional(before.get("info"@), after.get("info"@)),
    ensures
        movement(before, after).changed,
        movement(before, after).severity == Severity::Metadata,
{
    let (leaves, drift) = flattened(after);
    let start = Movement { drift, ..diff::still(sources::RULES@) };
    law_leaves_are_ordered(after);
    diff::law_same_maps_compare_equal(start, leaves, highlight_fields(), "rule"@);
}

/// A leaf that came, went or was edited makes the change a major one.
pub proof fn law_moved_leaf_is_major(before: Json, after: Json)
    requires
        ({
            let b = flattened(before).0;
            let a = flattened(after).0;
            diff::absent_keys(a, b).len() + diff::absent_keys(b, a).len() + diff::edited(
                b,
                a,
            ).len() > 0
        }),
    ensures
        movement(before, after).severity == Severity::Major,
{
}

pub open spec fn known_section(section: Seq<char>) -> bool {
    section == "info"@ || section == "FRD"@ || section == "FRR"@ || section == "KSI"@ || section
        == "CTL"@
}

proof fn lemma_noting(root: Seq<(Seq<char>, Json)>, section: Seq<char>, drift: Seq<Seq<char>>)
    ensures
        forall|note: Seq<char>| drift.contains(note) ==> noting(root, section, drift).contains(note),
        table::lookup(root, section) is None ==> noting(root, section, drift).contains(
            missing_note(section),
        ),
{
    let after = noting(root, section, drift);
    assert forall|note: Seq<char>| drift.contains(note) implies after.contains(note) by {
        let i = choose|i: int| 0 <= i < drift.len() && drift[i] == note;
        assert(after[i] == note);
    }
    if table::lookup(root, section) is None {
        assert(after[after.len() - 1] == missing_note(section));
    }
}

proof fn lemma_unknown_noted(root: Seq<(Seq<char>, Json)>, i: int)
    requires
        0 <= i < root.len(),
        !known_section(root[i].0),
    ensures
        sections(root).1.contains(unknown_note(root[i].0)),
    decreases root.len(),
{
    let note = unknown_note(root[i].0);
    let drift = sections(root).1;
    if i == root.len() - 1 {
        assert(drift[drift.len() - 1] == note);
    } else {
        lemma_unknown_noted(root.drop_last(), i);
        let before = sections(root.drop_last()).1;
        let k = choose|k: int| 0 <= k < before.len() && before[k] == note;
        assert(drift[k] == note);
    }
}

proof fn lemma_slash(a: Seq<char>, b: Seq<char>, key: Seq<char>)
    requires
        !key.contains('/'),
    ensures
        a + "/"@ + b != key,
        a + "/info"@ != key,
{
    reveal_strlit("/");
    reveal_strlit("/info");
    assert((a + "/"@ + b)[a.len() as int] == '/');
    assert((a + "/info"@)[a.len() as int] == '/');
    if a + "/"@ + b == key {
        assert(key[a.len() as int] == '/');
    }
    if a + "/info"@ == key {
        assert(key[a.len() as int] == '/');
    }
}

proof fn lemma_spread_keeps(
    levels: nat,
    prefix: Seq<char>,
    entries: Seq<(Seq<char>, Json)>,
    leaves: Seq<(Seq<char>, Json)>,
    key: Seq<char>,
)
    requires
        table::ordered(leaves),
        !key.contains('/'),
    ensures
        table::lookup(spread(levels, prefix, entries, leaves), key) == table::lookup(leaves, key),
    decreases levels, entries.len(),
{
    if entries.len() > 0 {
        lemma_spread_keeps(levels, prefix, entries.drop_last(), leaves, key);
        lemma_spread_ordered(levels, prefix, entries.drop_last(), leaves);
        let before = spread(levels, prefix, entries.drop_last(), leaves);
        let (name, value) = entries.last();
        let path = prefix + "/"@ + name;
        if levels == 0 {
            lemma_slash(prefix, name, key);
            table::lemma_put_lookup(before, path, value, key);
        } else {
            lemma_spread_keeps(
                (levels - 1) as nat,
                path,
                json::members_of(Some(value)),
                before,
                key,
            );
        }
    }
}

proof fn lemma_info_keeps(
    prefix: Seq<char>,
    body: Json,
    leaves: Seq<(Seq<char>, Json)>,
    key: Seq<char>,
)
    requires
        table::ordered(leaves),
        !key.contains('/'),
    ensures
        table::lookup(with_info(prefix, body, leaves), key) == table::lookup(leaves, key),
{
    lemma_slash(prefix, prefix, key);
    if body.get("info"@) is Some {
        table::lemma_put_lookup(leaves, prefix + "/info"@, body.get("info"@)->Some_0, key);
    }
}

proof fn lemma_frr_keeps(
    families: Seq<(Seq<char>, Json)>,
    leaves: Seq<(Seq<char>, Json)>,
    key: Seq<char>,
)
    requires
        table::ordered(leaves),
        !key.contains('/'),
    ensures
        table::lookup(frr_leaves(families, leaves), key) == table::lookup(leaves, key),
    decreases families.len(),
{
    if families.len() > 0 {
        lemma_frr_keeps(families.drop_last(), leaves, key);
        lemma_frr_ordered(families.drop_last(), leaves);
        let before = frr_leaves(families.drop_last(), leaves);
        let (family, body) = families.last();
        let prefix = "FRR/"@ + family;
        lemma_info_keeps(prefix, body, before, key);
        lemma_with_info_ordered(prefix, body, before);
        lemma_spread_keeps(
            2,
            prefix,
            json::members_of(body.get("data"@)),
            with_info(prefix, body, before),
            key,
        );
    }
}

proof fn lemma_ksi_keeps(
    families: Seq<(Seq<char>, Json)>,
    leaves: Seq<(Seq<char>, Json)>,
    key: Seq<char>,
)
    requires
        table::ordered(leaves),
        !key.contains('/'),
    ensures
        table::lookup(ksi_leaves(families, leaves), key) == table::lookup(leaves, key),
    decreases families.len(),
{
    if families.len() > 0 {
        lemma_ksi_keeps(families.drop_last(), leaves, key);
        lemma_ksi_ordered(families.drop_last(), leaves);
        let before = ksi_leaves(families.drop_last(), leaves);
        let (family, body) = families.last();
        let prefix = "KSI/"@ + family;
        let header = match body {
            Json::Object(m) => Json::Object(table::drop_key(m, "indicators"@)),
            other => other,
        };
        lemma_slash(prefix, prefix, key);
        table::lemma_put_lookup(before, prefix + "/info"@, header, key);
        table::lemma_put_ordered(before, prefix + "/info"@, header);
        lemma_spread_keeps(
            0,
            prefix,
            json::members_of(body.get("indicators"@)),
            table::put(before, prefix + "/info"@, header),
            key,
        );
    }
}

proof fn lemma_unknown_kept(root: Seq<(Seq<char>, Json)>, i: int)
    requires
        table::ordered(root),
        0 <= i < root.len(),
        !known_section(root[i].0),
        !root[i].0.contains('/'),
    ensures
        table::lookup(sections(root).0, root[i].0) == Some(root[i].1),
    decreases root.len(),
{
    let key = root[i].0;
    let rest = root.drop_last();
    let leaves = sections(rest).0;
    let (section, body) = root.last();
    lemma_sections_ordered(rest);
    if i == root.len() - 1 {
        table::lemma_put_lookup(leaves, section, body, key);
    } else {
        assert forall|a: int, b: int| 0 <= a < b < rest.len() implies text::text_lt(
            (#[trigger] rest[a]).0,
            (#[trigger] rest[b]).0,
        ) by {
            assert(rest[a] == root[a] && rest[b] == root[b]);
        }
        lemma_unknown_kept(rest, i);
        assert(text::text_lt(root[i].0, root[root.len() - 1].0));
        text::lemma_text_lt_irreflexive(key);
        lemma_info_keeps("FRD"@, body, leaves, key);
        lemma_with_info_ordered("FRD"@, body, leaves);
        lemma_spread_keeps(
            1,
            "FRD"@,
            json::members_of(body.get("data"@)),
            with_info("FRD"@, body, leaves),
            key,
        );
        lemma_frr_keeps(json::members_of(Some(body)), leaves, key);
        lemma_ksi_keeps(json::members_of(Some(body)), leaves, key);
        lemma_spread_keeps(1, "CTL"@, json::members_of(Some(body)), leaves, key);
        table::lemma_put_lookup(leaves, section, body, key);
    }
}

/// A section that upstream added is reported as drift, and diffed whole rather
/// than dropped.
pub proof fn law_unknown_section_is_surfaced(doc: Json, i: int)
    requires
        doc matches Json::Object(root) && table::ordered(root) && 0 <= i < root.len()
            && !known_section(root[i].0) && !root[i].0.contains('/'),
    ensures
        flattened(doc).1.contains(unknown_note(doc->Object_0[i].0)),
        table::lookup(flattened(doc).0, doc->Object_0[i].0) == Some(doc->Object_0[i].1),
{
    let root = doc->Object_0;
    lemma_unknown_noted(root, i);
    lemma_unknown_kept(root, i);
    let drift = sections(root).1;
    let frd = noting(root, "FRD"@, drift);
    let frr = noting(root, "FRR"@, frd);
    let ksi = noting(root, "KSI"@, frr);
    lemma_noting(root, "FRD"@, drift);
    lemma_noting(root, "FRR"@, frd);
    lemma_noting(root, "KSI"@, frr);
    lemma_noting(root, "CTL"@, ksi);
}

/// A section that upstream dropped is reported as drift.
pub proof fn law_missing_section_is_surfaced(doc: Json, section: Seq<char>)
    requires
        doc is Object,
        section == "FRD"@ || section == "FRR"@ || section == "KSI"@ || section == "CTL"@,
        doc.get(section) is None,
    ensures
        flattened(doc).1.contains(missing_note(section)),
{
    let root = doc->Object_0;
    let drift = sections(root).1;
    let frd = noting(root, "FRD"@, drift);
    let frr = noting(root, "FRR"@, frd);
    let ksi = noting(root, "KSI"@, frr);
    lemma_noting(root, "FRD"@, drift);
    lemma_noting(root, "FRR"@, frd);
    lemma_noting(root, "KSI"@, frr);
    lemma_noting(root, "CTL"@, ksi);
}

// What a ruleset's leaves are: each is found under the path it stands at.

proof fn lemma_split_len(a: Seq<char>, b: Seq<char>, c: char)
    ensures
        text::split(a.push(c) + b, c).len() == text::split(a, c).len() + text::split(b, c).len(),
    decreases b.len(),
{
    let whole = a.push(c) + b;
    text::lemma_split_pieces(a, c);
    if b.len() == 0 {
        assert(whole =~= a.push(c));
        assert(whole.drop_last() =~= a);
    } else {
        lemma_split_len(a, b.drop_last(), c);
        text::lemma_split_pieces(b.drop_last(), c);
        assert(whole.drop_last() =~= a.push(c) + b.drop_last());
    }
}

/// Two texts that part at their first slash part alike only where they are equal.
proof fn lemma_first_part(a: Seq<char>, x: Seq<char>, b: Seq<char>, y: Seq<char>)
    requires
        !a.contains('/'),
        !b.contains('/'),
        a + "/"@ + x == b + "/"@ + y,
    ensures
        a == b,
        x == y,
{
    reveal_strlit("/");
    let s = a + "/"@ + x;
    let t = b + "/"@ + y;
    assert(s[a.len() as int] == '/');
    assert(t[b.len() as int] == '/');
    if a.len() < b.len() {
        assert(b[a.len() as int] == t[a.len() as int]);
        assert(b.contains('/'));
    }
    if b.len() < a.len() {
        assert(a[b.len() as int] == s[b.len() as int]);
        assert(a.contains('/'));
    }
    assert(a =~= s.take(a.len() as int));
    assert(b =~= t.take(b.len() as int));
    assert(x =~= s.skip((a.len() + 1) as int));
    assert(y =~= t.skip((b.len() + 1) as int));
}

/// Whether spreading `levels` levels under a prefix can write a key.
spec fn reaches(levels: nat, prefix: Seq<char>, key: Seq<char>) -> bool {
    exists|tail: Seq<char>|
        key == #[trigger] (prefix + "/"@ + tail) && text::split(tail, '/').len() > levels
}

proof fn lemma_spread_elsewhere(
    levels: nat,
    prefix: Seq<char>,
    entries: Seq<(Seq<char>, Json)>,
    leaves: Seq<(Seq<char>, Json)>,
    key: Seq<char>,
)
    requires
        table::ordered(leaves),
        !reaches(levels, prefix, key),
    ensures
        table::lookup(spread(levels, prefix, entries, leaves), key) == table::lookup(leaves, key),
    decreases levels, entries.len(),
{
    if entries.len() > 0 {
        lemma_spread_elsewhere(levels, prefix, entries.drop_last(), leaves, key);
        lemma_spread_ordered(levels, prefix, entries.drop_last(), leaves);
        let before = spread(levels, prefix, entries.drop_last(), leaves);
        let (name, value) = entries.last();
        let path = prefix + "/"@ + name;
        if levels == 0 {
            text::lemma_split_pieces(name, '/');
            table::lemma_put_lookup(before, path, value, key);
        } else {
            let less = (levels - 1) as nat;
            if reaches(less, path, key) {
                let tail = choose|tail: Seq<char>|
                    key == #[trigger] (path + "/"@ + tail) && text::split(tail, '/').len() > less;
                reveal_strlit("/");
                let longer = name.push('/') + tail;
                lemma_split_len(name, tail, '/');
                text::lemma_split_pieces(name, '/');
                assert(path + "/"@ + tail =~= prefix + "/"@ + longer);
                assert(reaches(levels, prefix, key));
            }
            lemma_spread_elsewhere(less, path, json::members_of(Some(value)), before, key);
        }
    }
}

/// Names that hold no slash, in order, on each of the levels to be spread.
pub open spec fn tidy(levels: nat, entries: Seq<(Seq<char>, Json)>) -> bool
    decreases levels,
{
    &&& table::ordered(entries)
    &&& forall|i: int|
        #![trigger entries[i]]
        0 <= i < entries.len() ==> !entries[i].0.contains('/') && (levels > 0 ==> tidy(
            (levels - 1) as nat,
            json::members_of(Some(entries[i].1)),
        ))
}

/// Names below a prefix, parted by slashes.
pub open spec fn path_under(prefix: Seq<char>, names: Seq<Seq<char>>) -> Seq<char>
    decreases names.len(),
{
    if names.len() == 0 {
        prefix
    } else {
        path_under(prefix + "/"@ + names[0], names.drop_first())
    }
}

/// No name holds a slash.
pub open spec fn unslashed(names: Seq<Seq<char>>) -> bool {
    forall|i: int| 0 <= i < names.len() ==> !(#[trigger] names[i]).contains('/')
}

proof fn lemma_path_begins(prefix: Seq<char>, names: Seq<Seq<char>>)
    requires
        unslashed(names),
    ensures
        names.len() == 0 ==> path_under(prefix, names) == prefix,
        names.len() > 0 ==> exists|tail: Seq<char>|
            path_under(prefix, names) == #[trigger] (prefix + "/"@ + tail) && text::split(
                tail,
                '/',
            ).len() == names.len() && tail == (if names.len() == 1 {
                names[0]
            } else {
                names[0] + "/"@ + tail.skip((names[0].len() + 1) as int)
            }),
    decreases names.len(),
{
    if names.len() > 0 {
        let path = prefix + "/"@ + names[0];
        let rest = names.drop_first();
        assert(unslashed(rest)) by {
            assert forall|i: int| 0 <= i < rest.len() implies !(#[trigger] rest[i]).contains('/') by {
                assert(rest[i] == names[i + 1]);
            }
        }
        lemma_path_begins(path, rest);
        reveal_strlit("/");
        assert(!names[0].contains('/'));
        if rest.len() == 0 {
            text::lemma_split_one(names[0], '/');
            assert(path_under(prefix, names) == prefix + "/"@ + names[0]);
        } else {
            let tail = choose|tail: Seq<char>|
                path_under(path, rest) == #[trigger] (path + "/"@ + tail) && text::split(
                    tail,
                    '/',
                ).len() == rest.len();
            let longer = names[0] + "/"@ + tail;
            assert(longer =~= names[0].push('/') + tail);
            lemma_split_len(names[0], tail, '/');
            text::lemma_split_one(names[0], '/');
            assert(path + "/"@ + tail =~= prefix + "/"@ + longer);
            assert(longer.skip((names[0].len() + 1) as int) =~= tail);
            assert(path_under(prefix, names) == prefix + "/"@ + longer);
        }
    }
}

proof fn lemma_path_not_under(
    prefix: Seq<char>,
    names: Seq<Seq<char>>,
    name: Seq<char>,
    levels: nat,
)
    requires
        unslashed(names),
        names.len() > 0,
        !name.contains('/'),
        name != names[0],
    ensures
        path_under(prefix, names) != prefix + "/"@ + name,
        !reaches(levels, prefix + "/"@ + name, path_under(prefix, names)),
{
    lemma_path_begins(prefix, names);
    let key = path_under(prefix, names);
    let tail = choose|tail: Seq<char>|
        key == #[trigger] (prefix + "/"@ + tail) && text::split(tail, '/').len() == names.len()
            && tail == (if names.len() == 1 {
            names[0]
        } else {
            names[0] + "/"@ + tail.skip((names[0].len() + 1) as int)
        });
    assert(!names[0].contains('/'));
    if key == prefix + "/"@ + name {
        lemma_same_tail(prefix, tail, name);
        if names.len() > 1 {
            lemma_slash(names[0], tail.skip((names[0].len() + 1) as int), name);
        }
    }
    if reaches(levels, prefix + "/"@ + name, key) {
        let end = choose|end: Seq<char>|
            key == #[trigger] (prefix + "/"@ + name + "/"@ + end) && text::split(end, '/').len()
                > levels;
        assert(prefix + "/"@ + name + "/"@ + end =~= prefix + "/"@ + (name + "/"@ + end));
        lemma_same_tail(prefix, tail, name + "/"@ + end);
        if names.len() == 1 {
            lemma_slash(name, end, names[0]);
        } else {
            lemma_first_part(name, end, names[0], tail.skip((names[0].len() + 1) as int));
        }
    }
}

proof fn lemma_same_tail(prefix: Seq<char>, a: Seq<char>, b: Seq<char>)
    requires
        prefix + "/"@ + a == prefix + "/"@ + b,
    ensures
        a == b,
{
    let stem = prefix + "/"@;
    assert((stem + a).skip(stem.len() as int) =~= a);
    assert((stem + b).skip(stem.len() as int) =~= b);
}

/// Where the names are tidy, spreading puts each value under the path that it
/// stands at, and leaves every other path as it was.
proof fn lemma_spread_finds(
    levels: nat,
    prefix: Seq<char>,
    entries: Seq<(Seq<char>, Json)>,
    leaves: Seq<(Seq<char>, Json)>,
    names: Seq<Seq<char>>,
)
    requires
        table::ordered(leaves),
        tidy(levels, entries),
        unslashed(names),
        names.len() == levels + 1,
    ensures
        table::lookup(spread(levels, prefix, entries, leaves), path_under(prefix, names)) == (
        match json::at(Json::Object(entries), names) {
            Some(v) => Some(v),
            None => table::lookup(leaves, path_under(prefix, names)),
        }),
    decreases levels, entries.len(),
{
    let key = path_under(prefix, names);
    json::lemma_at_first(Json::Object(entries), names);
    assert(!names[0].contains('/'));
    if entries.len() > 0 {
        let front = entries.drop_last();
        let last = entries[entries.len() - 1];
        let name = last.0;
        let value = last.1;
        assert(!name.contains('/'));
        assert(table::ordered(front)) by {
            assert forall|i: int, j: int| 0 <= i < j < front.len() implies text::text_lt(
                #[trigger] front[i].0,
                #[trigger] front[j].0,
            ) by {
                assert(text::text_lt(entries[i].0, entries[j].0));
            }
        }
        assert(tidy(levels, front)) by {
            assert forall|i: int|
                #![trigger front[i]]
                0 <= i < front.len() implies !front[i].0.contains('/') && (levels > 0 ==> tidy(
                (levels - 1) as nat,
                json::members_of(Some(front[i].1)),
            )) by {
                assert(front[i] == entries[i]);
            }
        }
        lemma_spread_finds(levels, prefix, front, leaves, names);
        json::lemma_at_first(Json::Object(front), names);
        lemma_spread_ordered(levels, prefix, front, leaves);
        let before = spread(levels, prefix, front, leaves);
        let path = prefix + "/"@ + name;
        table::lemma_lookup_entry(entries, entries.len() - 1);
        let i = table::lemma_lookup_index(front, names[0]);
        let j = table::lemma_lookup_index(entries, names[0]);
        if name == names[0] {
            if table::lookup(front, name) is Some {
                text::lemma_text_lt_irreflexive(name);
                assert(text::text_lt(entries[i].0, entries[entries.len() - 1].0));
            }
            assert(json::at(Json::Object(front), names) is None);
            let rest = names.drop_first();
            if levels == 0 {
                assert(rest.len() == 0);
                assert(json::at(value, rest) == Some(value));
                assert(key == path);
                table::lemma_put_lookup(before, path, value, key);
            } else {
                let less = (levels - 1) as nat;
                let inner = json::members_of(Some(value));
                assert(unslashed(rest)) by {
                    assert forall|k: int| 0 <= k < rest.len() implies !(#[trigger] rest[k]).contains(
                        '/',
                    ) by {
                        assert(rest[k] == names[k + 1]);
                    }
                }
                assert(tidy(less, inner));
                lemma_spread_finds(less, path, inner, before, rest);
                assert(path_under(path, rest) == key);
                json::lemma_at_first(Json::Object(inner), rest);
                json::lemma_at_first(value, rest);
                assert(json::at(Json::Object(inner), rest) == json::at(value, rest));
            }
        } else {
            lemma_path_not_under(prefix, names, name, (if levels == 0 { 0 } else { (levels - 1) as nat }));
            if table::lookup(front, names[0]) is Some {
                assert(entries[i].0 == names[0]);
                table::lemma_lookup_entry(entries, i);
            }
            if table::lookup(entries, names[0]) is Some {
                assert(front[j].0 == names[0]);
                table::lemma_lookup_entry(front, j);
            }
            assert(table::lookup(front, names[0]) == table::lookup(entries, names[0]));
            if levels == 0 {
                table::lemma_put_lookup(before, path, value, key);
            } else {
                lemma_spread_elsewhere(
                    (levels - 1) as nat,
                    path,
                    json::members_of(Some(value)),
                    before,
                    key,
                );
            }
        }
    }
}

spec fn within(place: Seq<char>, key: Seq<char>) -> bool {
    exists|tail: Seq<char>| key == #[trigger] (place + "/"@ + tail)
}

proof fn lemma_within_one(a: Seq<char>, b: Seq<char>, key: Seq<char>)
    requires
        within(a, key),
        a.len() == b.len(),
        a != b,
    ensures
        !within(b, key),
{
    let x = choose|x: Seq<char>| key == #[trigger] (a + "/"@ + x);
    assert(key.take(a.len() as int) =~= a);
    if within(b, key) {
        let y = choose|y: Seq<char>| key == #[trigger] (b + "/"@ + y);
        assert(key.take(b.len() as int) =~= b);
    }
}

proof fn lemma_within_longer(place: Seq<char>, more: Seq<char>, key: Seq<char>)
    requires
        within(place + "/"@ + more, key),
    ensures
        within(place, key),
{
    let x = choose|x: Seq<char>| key == #[trigger] (place + "/"@ + more + "/"@ + x);
    assert(place + "/"@ + more + "/"@ + x =~= place + "/"@ + (more + "/"@ + x));
}

proof fn lemma_info_at(place: Seq<char>)
    ensures
        place + "/info"@ == place + "/"@ + "info"@,
        within(place, place + "/info"@),
        !reaches(1, place, place + "/info"@),
        !reaches(2, place, place + "/info"@),
{
    reveal_strlit("/");
    reveal_strlit("info");
    reveal_strlit("/info");
    let key = place + "/info"@;
    assert(key =~= place + "/"@ + "info"@);
    assert(!"info"@.contains('/'));
    text::lemma_split_one("info"@, '/');
    assert forall|levels: nat| levels >= 1 implies !reaches(levels, place, key) by {
        if reaches(levels, place, key) {
            let tail = choose|tail: Seq<char>|
                key == #[trigger] (place + "/"@ + tail) && text::split(tail, '/').len() > levels;
            assert(tail =~= (place + "/"@ + tail).skip((place.len() + 1) as int));
            assert("info"@ =~= (place + "/"@ + "info"@).skip((place.len() + 1) as int));
        }
    }
}

proof fn lemma_not_within(place: Seq<char>, key: Seq<char>, levels: nat)
    requires
        !within(place, key),
    ensures
        !reaches(levels, place, key),
        key != place + "/info"@,
{
    lemma_info_at(place);
}

/// Two places under one section are apart where their names are.
proof fn lemma_families_apart(section: Seq<char>, a: Seq<char>, b: Seq<char>, key: Seq<char>)
    requires
        !a.contains('/'),
        !b.contains('/'),
        a != b,
        within(section + "/"@ + a, key),
    ensures
        !within(section + "/"@ + b, key),
{
    let x = choose|x: Seq<char>| key == #[trigger] (section + "/"@ + a + "/"@ + x);
    let cut = section.len() + 1;
    reveal_strlit("/");
    assert(key.skip(cut as int) =~= a + "/"@ + x);
    if within(section + "/"@ + b, key) {
        let y = choose|y: Seq<char>| key == #[trigger] (section + "/"@ + b + "/"@ + y);
        assert(key.skip(cut as int) =~= b + "/"@ + y);
        lemma_first_part(a, x, b, y);
    }
}

proof fn lemma_front_tidy(levels: nat, entries: Seq<(Seq<char>, Json)>)
    requires
        tidy(levels, entries),
        entries.len() > 0,
    ensures
        tidy(levels, entries.drop_last()),
{
    let front = entries.drop_last();
    assert forall|i: int, j: int| 0 <= i < j < front.len() implies text::text_lt(
        #[trigger] front[i].0,
        #[trigger] front[j].0,
    ) by {
        assert(text::text_lt(entries[i].0, entries[j].0));
    }
    assert forall|i: int|
        #![trigger front[i]]
        0 <= i < front.len() implies !front[i].0.contains('/') && (levels > 0 ==> tidy(
        (levels - 1) as nat,
        json::members_of(Some(front[i].1)),
    )) by {
        assert(front[i] == entries[i]);
    }
}

/// A name found in all but the last entry, or the last entry's own.
proof fn lemma_lookup_front(entries: Seq<(Seq<char>, Json)>, name: Seq<char>)
    requires
        table::ordered(entries),
        entries.len() > 0,
    ensures
        name == entries.last().0 ==> table::lookup(entries, name) == Some(entries.last().1)
            && table::lookup(entries.drop_last(), name) is None,
        name != entries.last().0 ==> table::lookup(entries, name) == table::lookup(
            entries.drop_last(),
            name,
        ),
{
    let front = entries.drop_last();
    let n = entries.len() - 1;
    table::lemma_lookup_entry(entries, n);
    let i = table::lemma_lookup_index(front, name);
    let j = table::lemma_lookup_index(entries, name);
    assert(table::ordered(front)) by {
        assert forall|i: int, j: int| 0 <= i < j < front.len() implies text::text_lt(
            #[trigger] front[i].0,
            #[trigger] front[j].0,
        ) by {
            assert(text::text_lt(entries[i].0, entries[j].0));
        }
    }
    if name == entries[n].0 {
        if table::lookup(front, name) is Some {
            text::lemma_text_lt_irreflexive(name);
            assert(text::text_lt(entries[i].0, entries[n].0));
        }
    } else {
        if table::lookup(front, name) is Some {
            assert(entries[i].0 == name);
            table::lemma_lookup_entry(entries, i);
        }
        if table::lookup(entries, name) is Some {
            assert(front[j].0 == name);
            table::lemma_lookup_entry(front, j);
        }
    }
}

/// The section named in a key is the only one that writes it.
proof fn lemma_frr_foreign(
    families: Seq<(Seq<char>, Json)>,
    leaves: Seq<(Seq<char>, Json)>,
    key: Seq<char>,
)
    requires
        table::ordered(leaves),
        !within("FRR"@, key),
    ensures
        table::lookup(frr_leaves(families, leaves), key) == table::lookup(leaves, key),
    decreases families.len(),
{
    if families.len() > 0 {
        let front = families.drop_last();
        lemma_frr_foreign(front, leaves, key);
        lemma_frr_ordered(front, leaves);
        if within("FRR"@ + "/"@ + families.last().0, key) {
            lemma_within_longer("FRR"@, families.last().0, key);
        }
        lemma_frr_step(frr_leaves(front, leaves), families.last(), key);
    }
}

proof fn lemma_frr_step(leaves: Seq<(Seq<char>, Json)>, family: (Seq<char>, Json), key: Seq<char>)
    requires
        table::ordered(leaves),
        !within("FRR"@ + "/"@ + family.0, key),
    ensures
        "FRR/"@ == "FRR"@ + "/"@,
        table::lookup(
            spread(
                2,
                "FRR/"@ + family.0,
                json::members_of(family.1.get("data"@)),
                with_info("FRR/"@ + family.0, family.1, leaves),
            ),
            key,
        ) == table::lookup(leaves, key),
{
    reveal_strlit("FRR/");
    reveal_strlit("FRR");
    reveal_strlit("/");
    assert("FRR/"@ =~= "FRR"@ + "/"@);
    let prefix = "FRR/"@ + family.0;
    lemma_not_within(prefix, key, 2);
    lemma_with_info_ordered(prefix, family.1, leaves);
    if let Some(info) = family.1.get("info"@) {
        table::lemma_put_lookup(leaves, prefix + "/info"@, info, key);
    }
    lemma_spread_elsewhere(
        2,
        prefix,
        json::members_of(family.1.get("data"@)),
        with_info(prefix, family.1, leaves),
        key,
    );
}

pub open spec fn ksi_header(body: Json) -> Json {
    match body {
        Json::Object(m) => Json::Object(table::drop_key(m, "indicators"@)),
        other => other,
    }
}

proof fn lemma_ksi_step(leaves: Seq<(Seq<char>, Json)>, family: (Seq<char>, Json), key: Seq<char>)
    requires
        table::ordered(leaves),
        !within("KSI"@ + "/"@ + family.0, key),
    ensures
        "KSI/"@ == "KSI"@ + "/"@,
        table::lookup(
            spread(
                0,
                "KSI/"@ + family.0,
                json::members_of(family.1.get("indicators"@)),
                table::put(leaves, "KSI/"@ + family.0 + "/info"@, ksi_header(family.1)),
            ),
            key,
        ) == table::lookup(leaves, key),
{
    reveal_strlit("KSI/");
    reveal_strlit("KSI");
    reveal_strlit("/");
    assert("KSI/"@ =~= "KSI"@ + "/"@);
    let prefix = "KSI/"@ + family.0;
    lemma_not_within(prefix, key, 0);
    table::lemma_put_ordered(leaves, prefix + "/info"@, ksi_header(family.1));
    table::lemma_put_lookup(leaves, prefix + "/info"@, ksi_header(family.1), key);
    lemma_spread_elsewhere(
        0,
        prefix,
        json::members_of(family.1.get("indicators"@)),
        table::put(leaves, prefix + "/info"@, ksi_header(family.1)),
        key,
    );
}

proof fn lemma_ksi_foreign(
    families: Seq<(Seq<char>, Json)>,
    leaves: Seq<(Seq<char>, Json)>,
    key: Seq<char>,
)
    requires
        table::ordered(leaves),
        !within("KSI"@, key),
    ensures
        table::lookup(ksi_leaves(families, leaves), key) == table::lookup(leaves, key),
    decreases families.len(),
{
    if families.len() > 0 {
        let front = families.drop_last();
        lemma_ksi_foreign(front, leaves, key);
        lemma_ksi_ordered(front, leaves);
        if within("KSI"@ + "/"@ + families.last().0, key) {
            lemma_within_longer("KSI"@, families.last().0, key);
        }
        lemma_ksi_step(ksi_leaves(front, leaves), families.last(), key);
    }
}

/// What a section's body adds to the leaves.
spec fn section_leaves(
    section: Seq<char>,
    body: Json,
    leaves: Seq<(Seq<char>, Json)>,
) -> Seq<(Seq<char>, Json)> {
    if section == "FRD"@ {
        frd_leaves(body, leaves)
    } else if section == "FRR"@ {
        frr_leaves(json::members_of(Some(body)), leaves)
    } else if section == "KSI"@ {
        ksi_leaves(json::members_of(Some(body)), leaves)
    } else {
        ctl_leaves(body, leaves)
    }
}

proof fn lemma_section_names()
    ensures
        "FRD"@.len() == 3,
        "FRR"@.len() == 3,
        "KSI"@.len() == 3,
        "CTL"@.len() == 3,
        "info"@.len() == 4,
        "FRD"@ != "FRR"@,
        "FRD"@ != "KSI"@,
        "FRD"@ != "CTL"@,
        "FRR"@ != "KSI"@,
        "FRR"@ != "CTL"@,
        "KSI"@ != "CTL"@,
{
    reveal_strlit("FRD");
    reveal_strlit("FRR");
    reveal_strlit("KSI");
    reveal_strlit("CTL");
    reveal_strlit("info");
    assert("FRD"@[2] == 'D');
    assert("FRR"@[2] == 'R');
    assert("FRD"@[0] == 'F');
    assert("FRR"@[0] == 'F');
    assert("KSI"@[0] == 'K');
    assert("CTL"@[0] == 'C');
}

proof fn lemma_other_section(
    section: Seq<char>,
    entry: (Seq<char>, Json),
    leaves: Seq<(Seq<char>, Json)>,
    key: Seq<char>,
)
    requires
        table::ordered(leaves),
        section == "FRD"@ || section == "FRR"@ || section == "KSI"@ || section == "CTL"@,
        within(section, key),
        known_section(entry.0),
        entry.0 != section,
        entry.0 != "info"@,
    ensures
        table::lookup(section_leaves(entry.0, entry.1, leaves), key) == table::lookup(leaves, key),
{
    lemma_section_names();
    lemma_within_one(section, entry.0, key);
    lemma_not_within(entry.0, key, 1);
    let body = entry.1;
    if entry.0 == "FRD"@ {
        lemma_with_info_ordered("FRD"@, body, leaves);
        if let Some(info) = body.get("info"@) {
            table::lemma_put_lookup(leaves, "FRD"@ + "/info"@, info, key);
        }
        lemma_spread_elsewhere(
            1,
            "FRD"@,
            json::members_of(body.get("data"@)),
            with_info("FRD"@, body, leaves),
            key,
        );
    } else if entry.0 == "FRR"@ {
        lemma_frr_foreign(json::members_of(Some(body)), leaves, key);
    } else if entry.0 == "KSI"@ {
        lemma_ksi_foreign(json::members_of(Some(body)), leaves, key);
    } else {
        lemma_spread_elsewhere(1, "CTL"@, json::members_of(Some(body)), leaves, key);
    }
}

/// A key under a section is looked up in what that section's body adds, to
/// leaves that lack it.
proof fn lemma_section_of(root: Seq<(Seq<char>, Json)>, section: Seq<char>, key: Seq<char>) -> (leaves:
    Seq<(Seq<char>, Json)>)
    requires
        tidy(0, root),
        section == "FRD"@ || section == "FRR"@ || section == "KSI"@ || section == "CTL"@,
        within(section, key),
    ensures
        table::ordered(leaves),
        table::lookup(leaves, key) is None,
        table::lookup(sections(root).0, key) == (match table::lookup(root, section) {
            Some(body) => table::lookup(section_leaves(section, body, leaves), key),
            None => None,
        }),
    decreases root.len(),
{
    if root.len() == 0 {
        Seq::empty()
    } else {
        let front = root.drop_last();
        lemma_front_tidy(0, root);
        let inner = lemma_section_of(front, section, key);
        lemma_lookup_front(root, section);
        lemma_sections_ordered(front);
        lemma_section_names();
        let before = sections(front).0;
        let last = root[root.len() - 1];
        if last.0 == section {
            before
        } else {
            if last.0 == "info"@ {
            } else if known_section(last.0) {
                lemma_other_section(section, last, before, key);
            } else {
                assert(!last.0.contains('/'));
                table::lemma_put_lookup(before, last.0, last.1, key);
                let tail = choose|tail: Seq<char>| key == #[trigger] (section + "/"@ + tail);
                reveal_strlit("/");
                assert(key[section.len() as int] == '/');
            }
            inner
        }
    }
}

/// A key under a family is looked up in what that family's body adds, to leaves
/// that lack it where the given ones do.
proof fn lemma_frr_family(
    families: Seq<(Seq<char>, Json)>,
    leaves: Seq<(Seq<char>, Json)>,
    family: Seq<char>,
    key: Seq<char>,
) -> (before: Seq<(Seq<char>, Json)>)
    requires
        table::ordered(leaves),
        tidy(0, families),
        !family.contains('/'),
        within("FRR"@ + "/"@ + family, key),
    ensures
        "FRR/"@ == "FRR"@ + "/"@,
        table::ordered(before),
        table::lookup(before, key) == table::lookup(leaves, key),
        table::lookup(frr_leaves(families, leaves), key) == (match table::lookup(
            families,
            family,
        ) {
            Some(body) => table::lookup(
                spread(
                    2,
                    "FRR/"@ + family,
                    json::members_of(body.get("data"@)),
                    with_info("FRR/"@ + family, body, before),
                ),
                key,
            ),
            None => table::lookup(leaves, key),
        }),
    decreases families.len(),
{
    reveal_strlit("FRR/");
    reveal_strlit("FRR");
    reveal_strlit("/");
    assert("FRR/"@ =~= "FRR"@ + "/"@);
    if families.len() == 0 {
        leaves
    } else {
        let front = families.drop_last();
        lemma_front_tidy(0, families);
        let inner = lemma_frr_family(front, leaves, family, key);
        lemma_lookup_front(families, family);
        lemma_frr_ordered(front, leaves);
        let before = frr_leaves(front, leaves);
        let last = families[families.len() - 1];
        assert(!last.0.contains('/'));
        if last.0 == family {
            before
        } else {
            lemma_families_apart("FRR"@, family, last.0, key);
            lemma_frr_step(before, last, key);
            inner
        }
    }
}

proof fn lemma_ksi_family(
    families: Seq<(Seq<char>, Json)>,
    leaves: Seq<(Seq<char>, Json)>,
    family: Seq<char>,
    key: Seq<char>,
) -> (before: Seq<(Seq<char>, Json)>)
    requires
        table::ordered(leaves),
        tidy(0, families),
        !family.contains('/'),
        within("KSI"@ + "/"@ + family, key),
    ensures
        "KSI/"@ == "KSI"@ + "/"@,
        table::ordered(before),
        table::lookup(before, key) == table::lookup(leaves, key),
        table::lookup(ksi_leaves(families, leaves), key) == (match table::lookup(
            families,
            family,
        ) {
            Some(body) => table::lookup(
                spread(
                    0,
                    "KSI/"@ + family,
                    json::members_of(body.get("indicators"@)),
                    table::put(before, "KSI/"@ + family + "/info"@, ksi_header(body)),
                ),
                key,
            ),
            None => table::lookup(leaves, key),
        }),
    decreases families.len(),
{
    reveal_strlit("KSI/");
    reveal_strlit("KSI");
    reveal_strlit("/");
    assert("KSI/"@ =~= "KSI"@ + "/"@);
    if families.len() == 0 {
        leaves
    } else {
        let front = families.drop_last();
        lemma_front_tidy(0, families);
        let inner = lemma_ksi_family(front, leaves, family, key);
        lemma_lookup_front(families, family);
        lemma_ksi_ordered(front, leaves);
        let before = ksi_leaves(front, leaves);
        let last = families[families.len() - 1];
        assert(!last.0.contains('/'));
        if last.0 == family {
            before
        } else {
            lemma_families_apart("KSI"@, family, last.0, key);
            lemma_ksi_step(before, last, key);
            inner
        }
    }
}

proof fn lemma_at_two(doc: Json, a: Seq<char>, b: Seq<char>)
    ensures
        json::at(doc, seq![a, b]) == (match doc.get(a) {
            Some(inner) => inner.get(b),
            None => None,
        }),
{
    let path = seq![a, b];
    json::lemma_at_first(doc, path);
    assert(path.drop_first() =~= seq![b]);
    if let Some(inner) = doc.get(a) {
        json::lemma_at_first(inner, seq![b]);
        assert(seq![b].drop_first() =~= Seq::<Seq<char>>::empty());
    }
}

proof fn lemma_at_three(doc: Json, a: Seq<char>, b: Seq<char>, rest: Seq<Seq<char>>)
    ensures
        json::at(doc, seq![a, b] + rest) == (match json::at(doc, seq![a, b]) {
            Some(inner) => json::at(inner, rest),
            None => None,
        }),
{
    let path = seq![a, b] + rest;
    lemma_at_two(doc, a, b);
    json::lemma_at_first(doc, path);
    assert(path.drop_first() =~= seq![b] + rest);
    if let Some(inner) = doc.get(a) {
        json::lemma_at_first(inner, seq![b] + rest);
        assert((seq![b] + rest).drop_first() =~= rest);
    }
}

/// The header of a rule family is among the leaves, under the family's name, as
/// the very value that the document has for it, and is absent where it has none.
pub proof fn law_family_header_is_a_leaf(doc: Json, family: Seq<char>)
    requires
        doc matches Json::Object(root) && tidy(0, root),
        tidy(0, json::members_of(doc.get("FRR"@))),
        !family.contains('/'),
    ensures
        table::lookup(flattened(doc).0, "FRR/"@ + family + "/info"@) == json::at(
            doc,
            seq!["FRR"@, family] + seq!["info"@],
        ),
{
    let root = doc->Object_0;
    let key = "FRR/"@ + family + "/info"@;
    reveal_strlit("FRR/");
    reveal_strlit("FRR");
    reveal_strlit("/");
    assert("FRR/"@ =~= "FRR"@ + "/"@);
    lemma_info_at("FRR/"@ + family);
    lemma_within_longer("FRR"@, family, key);
    let leaves = lemma_section_of(root, "FRR"@, key);
    lemma_section_names();
    lemma_at_two(doc, "FRR"@, family);
    lemma_at_three(doc, "FRR"@, family, seq!["info"@]);
    if let Some(body) = table::lookup(root, "FRR"@) {
        let families = json::members_of(Some(body));
        let before = lemma_frr_family(families, leaves, family, key);
        if let Some(inner) = table::lookup(families, family) {
            let prefix = "FRR/"@ + family;
            lemma_with_info_ordered(prefix, inner, before);
            lemma_spread_elsewhere(
                2,
                prefix,
                json::members_of(inner.get("data"@)),
                with_info(prefix, inner, before),
                key,
            );
            if let Some(info) = inner.get("info"@) {
                table::lemma_put_lookup(before, key, info, key);
            }
            json::lemma_at_first(inner, seq!["info"@]);
            assert(seq!["info"@].drop_first() =~= Seq::<Seq<char>>::empty());
        }
    }
}

/// Every rule is among the leaves, under family, type, subset and id, as the
/// very value that the document has for it, and is absent where it has none.
pub proof fn law_rule_is_a_leaf(
    doc: Json,
    family: Seq<char>,
    cert_type: Seq<char>,
    subset: Seq<char>,
    id: Seq<char>,
)
    requires
        doc matches Json::Object(root) && tidy(0, root),
        tidy(0, json::members_of(doc.get("FRR"@))),
        json::at(doc, seq!["FRR"@, family]) matches Some(body) ==> tidy(
            2,
            json::members_of(body.get("data"@)),
        ),
        unslashed(seq![family, cert_type, subset, id]),
    ensures
        table::lookup(
            flattened(doc).0,
            "FRR/"@ + family + "/"@ + cert_type + "/"@ + subset + "/"@ + id,
        ) == json::at(doc, seq!["FRR"@, family] + seq!["data"@, cert_type, subset, id]),
{
    let root = doc->Object_0;
    let prefix = "FRR/"@ + family;
    let names = seq![cert_type, subset, id];
    let key = prefix + "/"@ + cert_type + "/"@ + subset + "/"@ + id;
    reveal_strlit("FRR/");
    reveal_strlit("FRR");
    reveal_strlit("/");
    assert("FRR/"@ =~= "FRR"@ + "/"@);
    let all = seq![family, cert_type, subset, id];
    assert(!all[0].contains('/') && !all[1].contains('/') && !all[2].contains('/')
        && !all[3].contains('/'));
    assert(unslashed(names));
    assert(names.drop_first() =~= seq![subset, id]);
    assert(seq![subset, id].drop_first() =~= seq![id]);
    assert(seq![id].drop_first() =~= Seq::<Seq<char>>::empty());
    let p1 = prefix + "/"@ + cert_type;
    let p2 = p1 + "/"@ + subset;
    assert(path_under(p2, seq![id]) == path_under(key, Seq::empty()));
    assert(path_under(p1, seq![subset, id]) == path_under(p2, seq![id]));
    assert(path_under(prefix, names) == key);
    lemma_path_begins(prefix, names);
    assert(within(prefix, key));
    lemma_within_longer("FRR"@, family, key);
    let leaves = lemma_section_of(root, "FRR"@, key);
    lemma_section_names();
    lemma_at_two(doc, "FRR"@, family);
    lemma_at_three(doc, "FRR"@, family, seq!["data"@] + names);
    assert(seq!["data"@] + names =~= seq!["data"@, cert_type, subset, id]);
    if let Some(body) = table::lookup(root, "FRR"@) {
        let families = json::members_of(Some(body));
        let before = lemma_frr_family(families, leaves, family, key);
        if let Some(inner) = table::lookup(families, family) {
            lemma_with_info_ordered(prefix, inner, before);
            let held = with_info(prefix, inner, before);
            let data = json::members_of(inner.get("data"@));
            lemma_spread_finds(2, prefix, data, held, names);
            lemma_info_at(prefix);
            if let Some(info) = inner.get("info"@) {
                table::lemma_put_lookup(before, prefix + "/info"@, info, key);
                if key == prefix + "/info"@ {
                    let tail = choose|tail: Seq<char>|
                        key == #[trigger] (prefix + "/"@ + tail) && text::split(tail, '/').len()
                            == names.len();
                    assert(reaches(2, prefix, key));
                }
            }
            let rest = seq!["data"@] + names;
            json::lemma_at_first(inner, rest);
            assert(rest.drop_first() =~= names);
            json::lemma_at_first(Json::Object(data), names);
            if let Some(v) = inner.get("data"@) {
                json::lemma_at_first(v, names);
            }
        }
    }
}

/// The header of the definitions, and each definition, is among the leaves as
/// the very value that the document has for it.
pub proof fn law_definition_is_a_leaf(doc: Json, group: Seq<char>, id: Seq<char>)
    requires
        doc matches Json::Object(root) && tidy(0, root),
        json::at(doc, seq!["FRD"@, "data"@]) matches Some(data) ==> tidy(
            1,
            json::members_of(Some(data)),
        ),
        unslashed(seq![group, id]),
    ensures
        table::lookup(flattened(doc).0, "FRD"@ + "/info"@) == json::at(doc, seq!["FRD"@, "info"@]),
        table::lookup(flattened(doc).0, "FRD"@ + "/"@ + group + "/"@ + id) == json::at(
            doc,
            seq!["FRD"@, "data"@] + seq![group, id],
        ),
{
    let root = doc->Object_0;
    let names = seq![group, id];
    let key = "FRD"@ + "/"@ + group + "/"@ + id;
    let info = "FRD"@ + "/info"@;
    reveal_strlit("/");
    lemma_section_names();
    assert(!names[0].contains('/') && !names[1].contains('/'));
    assert(names.drop_first() =~= seq![id]);
    assert(seq![id].drop_first() =~= Seq::<Seq<char>>::empty());
    assert(path_under("FRD"@ + "/"@ + group, seq![id]) == path_under(key, Seq::empty()));
    assert(path_under("FRD"@, names) == key);
    lemma_path_begins("FRD"@, names);
    assert(within("FRD"@, key));
    lemma_info_at("FRD"@);
    let held = lemma_section_of(root, "FRD"@, info);
    let leaves = lemma_section_of(root, "FRD"@, key);
    lemma_at_two(doc, "FRD"@, "info"@);
    lemma_at_two(doc, "FRD"@, "data"@);
    lemma_at_three(doc, "FRD"@, "data"@, names);
    if let Some(body) = table::lookup(root, "FRD"@) {
        let data = json::members_of(body.get("data"@));
        lemma_with_info_ordered("FRD"@, body, held);
        lemma_with_info_ordered("FRD"@, body, leaves);
        lemma_spread_elsewhere(1, "FRD"@, data, with_info("FRD"@, body, held), info);
        lemma_spread_finds(1, "FRD"@, data, with_info("FRD"@, body, leaves), names);
        if let Some(header) = body.get("info"@) {
            table::lemma_put_lookup(held, info, header, info);
            table::lemma_put_lookup(leaves, info, header, key);
            if key == info {
                let tail = choose|tail: Seq<char>|
                    key == #[trigger] ("FRD"@ + "/"@ + tail) && text::split(tail, '/').len()
                        == names.len();
                assert(reaches(1, "FRD"@, key));
            }
        }
        json::lemma_at_first(Json::Object(data), names);
        if let Some(v) = body.get("data"@) {
            json::lemma_at_first(v, names);
        }
    }
}

/// Each control entry is among the leaves as the very value that the document
/// has for it.
pub proof fn law_control_entry_is_a_leaf(doc: Json, group: Seq<char>, id: Seq<char>)
    requires
        doc matches Json::Object(root) && tidy(0, root),
        tidy(1, json::members_of(doc.get("CTL"@))),
        unslashed(seq![group, id]),
    ensures
        table::lookup(flattened(doc).0, "CTL"@ + "/"@ + group + "/"@ + id) == json::at(
            doc,
            seq!["CTL"@, group] + seq![id],
        ),
{
    let root = doc->Object_0;
    let names = seq![group, id];
    let key = "CTL"@ + "/"@ + group + "/"@ + id;
    reveal_strlit("/");
    lemma_section_names();
    assert(!names[0].contains('/') && !names[1].contains('/'));
    assert(names.drop_first() =~= seq![id]);
    assert(seq![id].drop_first() =~= Seq::<Seq<char>>::empty());
    assert(path_under("CTL"@ + "/"@ + group, seq![id]) == path_under(key, Seq::empty()));
    assert(path_under("CTL"@, names) == key);
    lemma_path_begins("CTL"@, names);
    assert(within("CTL"@, key));
    let leaves = lemma_section_of(root, "CTL"@, key);
    let path = seq!["CTL"@, group] + seq![id];
    json::lemma_at_first(doc, path);
    assert(path.drop_first() =~= names);
    if let Some(body) = table::lookup(root, "CTL"@) {
        let data = json::members_of(Some(body));
        lemma_spread_finds(1, "CTL"@, data, leaves, names);
        json::lemma_at_first(Json::Object(data), names);
        json::lemma_at_first(body, names);
    }
}

/// An indicator family's header is among the leaves with every member but the
/// indicators, and each indicator is a leaf of its own. No indicator may be
/// called `info`, since that is where the header stands.
pub proof fn law_indicator_is_a_leaf(doc: Json, family: Seq<char>, id: Seq<char>, member: Seq<char>)
    requires
        doc matches Json::Object(root) && tidy(0, root),
        tidy(0, json::members_of(doc.get("KSI"@))),
        json::at(doc, seq!["KSI"@, family]) matches Some(body) ==> {
            &&& tidy(0, json::members_of(body.get("indicators"@)))
            &&& table::lookup(json::members_of(body.get("indicators"@)), "info"@) is None
            &&& body matches Json::Object(m) ==> table::ordered(m)
        },
        unslashed(seq![family, id]),
        id != "info"@,
    ensures
        table::lookup(flattened(doc).0, "KSI/"@ + family + "/"@ + id) == json::at(
            doc,
            seq!["KSI"@, family] + seq!["indicators"@, id],
        ),
        table::lookup(flattened(doc).0, "KSI/"@ + family + "/info"@) is Some <==> json::at(
            doc,
            seq!["KSI"@, family],
        ) is Some,
        table::lookup(flattened(doc).0, "KSI/"@ + family + "/info"@) matches Some(header) ==> {
            let body = json::at(doc, seq!["KSI"@, family])->0;
            &&& header.get("indicators"@) is None
            &&& member != "indicators"@ ==> header.get(member) == body.get(member)
            &&& !(body is Object) ==> header == body
        },
{
    let root = doc->Object_0;
    let prefix = "KSI/"@ + family;
    let key = prefix + "/"@ + id;
    let info = prefix + "/info"@;
    reveal_strlit("KSI/");
    reveal_strlit("KSI");
    reveal_strlit("/");
    assert("KSI/"@ =~= "KSI"@ + "/"@);
    lemma_section_names();
    let both = seq![family, id];
    assert(!both[0].contains('/') && !both[1].contains('/'));
    lemma_info_at(prefix);
    assert(within(prefix, key));
    lemma_within_longer("KSI"@, family, key);
    lemma_within_longer("KSI"@, family, info);
    let held = lemma_section_of(root, "KSI"@, info);
    let leaves = lemma_section_of(root, "KSI"@, key);
    lemma_at_two(doc, "KSI"@, family);
    let rest = seq!["indicators"@, id];
    lemma_at_three(doc, "KSI"@, family, rest);
    if key == info {
        assert(key.skip((prefix.len() + 1) as int) =~= id);
        assert(info.skip((prefix.len() + 1) as int) =~= "info"@);
    }
    if let Some(section) = table::lookup(root, "KSI"@) {
        let families = json::members_of(Some(section));
        let before = lemma_ksi_family(families, leaves, family, key);
        let under = lemma_ksi_family(families, held, family, info);
        if let Some(body) = table::lookup(families, family) {
            let indicators = json::members_of(body.get("indicators"@));
            let header = ksi_header(body);
            table::lemma_put_ordered(before, info, header);
            table::lemma_put_ordered(under, info, header);
            table::lemma_put_lookup(before, info, header, key);
            table::lemma_put_lookup(under, info, header, info);
            assert(!"info"@.contains('/')) by {
                reveal_strlit("info");
            }
            assert(seq![id].drop_first() =~= Seq::<Seq<char>>::empty());
            assert(seq!["info"@].drop_first() =~= Seq::<Seq<char>>::empty());
            assert(path_under(prefix, seq![id]) == path_under(key, Seq::empty()));
            assert(path_under(prefix, seq!["info"@]) == path_under(info, Seq::empty()));
            assert(unslashed(seq![id]));
            assert(unslashed(seq!["info"@]));
            lemma_spread_finds(0, prefix, indicators, table::put(before, info, header), seq![id]);
            lemma_spread_finds(
                0,
                prefix,
                indicators,
                table::put(under, info, header),
                seq!["info"@],
            );
            json::lemma_at_first(Json::Object(indicators), seq![id]);
            json::lemma_at_first(Json::Object(indicators), seq!["info"@]);
            lemma_at_two(body, "indicators"@, id);
            if let Json::Object(m) = body {
                canon::law_stripping_drops_one_member(body, "indicators"@, member);
                assert(canon::stripped(body, seq!["indicators"@]) == header);
            }
        }
    }
}

/// What moved between two rulesets is, leaf by leaf, what one has and the other
/// lacks and what both have with values that disagree. Any of these makes the
/// change a major one.
pub proof fn law_every_leaf_is_compared(before: Json, after: Json, id: Seq<char>)
    ensures
        ({
            let old_leaf = table::lookup(flattened(before).0, id);
            let new_leaf = table::lookup(flattened(after).0, id);
            let found = movement(before, after);
            &&& found.added.contains(id) <==> old_leaf is None && new_leaf is Some
            &&& found.removed.contains(id) <==> old_leaf is Some && new_leaf is None
            &&& (exists|k: int|
                0 <= k < found.modified.len() && (#[trigger] found.modified[k]).id == id) <==> (
            old_leaf is Some && new_leaf is Some && !json::agree(old_leaf->0, new_leaf->0))
            &&& forall|k: int|
                0 <= k < found.modified.len() && (#[trigger] found.modified[k]).id == id
                    ==> found.modified[k].fields == diff::field_moves(old_leaf->0, new_leaf->0)
            &&& !json::agree_optional(old_leaf, new_leaf) ==> found.severity == Severity::Major
                && found.changed
        }),
{
    let b = flattened(before).0;
    let (a, drift) = flattened(after);
    law_leaves_are_ordered(before);
    let start = Movement { drift, ..diff::still(sources::RULES@) };
    diff::law_comparison_is_exact(start, b, a, highlight_fields(), "rule"@, id);
    let found = diff::compared(start, b, a, highlight_fields(), "rule"@);
    let m = movement(before, after);
    assert(m.added == found.added && m.removed == found.removed && m.modified == found.modified);
    if !json::agree_optional(table::lookup(b, id), table::lookup(a, id)) {
        if found.added.contains(id) {
            assert(found.added.len() > 0);
        } else if found.removed.contains(id) {
            assert(found.removed.len() > 0);
        } else {
            let k = choose|k: int|
                0 <= k < found.modified.len() && (#[trigger] found.modified[k]).id == id;
            assert(found.modified.len() > 0);
        }
        assert(!found.quiet());
    }
}

/// Two rulesets whose headers of one family disagree have moved in a major way,
/// and the header is named among what came, went or was modified.
pub proof fn law_moved_family_header_is_major(before: Json, after: Json, family: Seq<char>)
    requires
        before matches Json::Object(root) && tidy(0, root),
        tidy(0, json::members_of(before.get("FRR"@))),
        after matches Json::Object(root) && tidy(0, root),
        tidy(0, json::members_of(after.get("FRR"@))),
        !family.contains('/'),
        !json::agree_optional(
            json::at(before, seq!["FRR"@, family] + seq!["info"@]),
            json::at(after, seq!["FRR"@, family] + seq!["info"@]),
        ),
    ensures
        movement(before, after).severity == Severity::Major,
        movement(before, after).changed,
        ({
            let header = "FRR/"@ + family + "/info"@;
            let old_info = json::at(before, seq!["FRR"@, family] + seq!["info"@]);
            let new_info = json::at(after, seq!["FRR"@, family] + seq!["info"@]);
            let found = movement(before, after);
            &&& old_info is None ==> found.added.contains(header)
            &&& new_info is None ==> found.removed.contains(header)
            &&& old_info is Some && new_info is Some ==> exists|k: int|
                0 <= k < found.modified.len() && (#[trigger] found.modified[k]).id == header
                    && found.modified[k].fields == diff::field_moves(old_info->0, new_info->0)
        }),
{
    law_family_header_is_a_leaf(before, family);
    law_family_header_is_a_leaf(after, family);
    law_every_leaf_is_compared(before, after, "FRR/"@ + family + "/info"@);
    let found = movement(before, after);
    let header = "FRR/"@ + family + "/info"@;
    let old_info = json::at(before, seq!["FRR"@, family] + seq!["info"@]);
    let new_info = json::at(after, seq!["FRR"@, family] + seq!["info"@]);
    if old_info is Some && new_info is Some {
        let k = choose|k: int|
            0 <= k < found.modified.len() && (#[trigger] found.modified[k]).id == header;
        assert(found.modified[k].fields == diff::field_moves(old_info->0, new_info->0));
    }
}

/// A rule whose force, status or effective date moved is highlighted with the
/// old value and the new one.
pub proof fn law_watched_fields_are_highlighted(
    before: Json,
    after: Json,
    id: Seq<char>,
    field: Seq<char>,
    old_map: Seq<(Seq<char>, Json)>,
    new_map: Seq<(Seq<char>, Json)>,
)
    requires
        table::lookup(flattened(before).0, id) == Some(Json::Object(old_map)),
        table::lookup(flattened(after).0, id) == Some(Json::Object(new_map)),
        table::ordered(old_map),
        table::ordered(new_map),
        field == "force"@ || field == "status"@ || field == "effective"@,
        !json::agree_optional(table::lookup(old_map, field), table::lookup(new_map, field)),
    ensures
        movement(before, after).highlights.contains(
            (Notice {
                kind: "rule"@,
                id,
                field,
                from: diff::rendered(table::lookup(old_map, field)),
                to: diff::rendered(table::lookup(new_map, field)),
            }),
        ),
{
    let b = flattened(before).0;
    let (a, drift) = flattened(after);
    law_leaves_are_ordered(before);
    let n = Notice {
        kind: "rule"@,
        id,
        field,
        from: diff::rendered(table::lookup(old_map, field)),
        to: diff::rendered(table::lookup(new_map, field)),
    };
    let old_leaf = Json::Object(old_map);
    let new_leaf = Json::Object(new_map);
    diff::law_field_moves_are_exact(old_map, new_map, field);
    diff::law_field_changes_mean_a_difference(old_map, new_map);
    let f = FieldMove { field, from: n.from, to: n.to };
    let fields = diff::field_moves(old_leaf, new_leaf);
    let k = choose|k: int| 0 <= k < fields.len() && fields[k] == f;
    assert(fields.len() > 0);
    diff::law_edits_are_exact(b, a, id);
    let entries = diff::edited(b, a);
    let e = Edit { id, fields };
    let i = choose|i: int| 0 <= i < entries.len() && entries[i] == e;
    assert(entries[i].id == n.id && entries[i].fields.contains(f));
    let watched = highlight_fields();
    assert(watched[0] == "force"@ && watched[1] == "status"@ && watched[2] == "effective"@);
    assert(watched.contains(field));
    diff::law_promotions_are_exact(entries, watched, "rule"@, n);
    let promoted = diff::promoted_all(entries, watched, "rule"@);
    let j = choose|j: int| 0 <= j < promoted.len() && promoted[j] == n;
    let all = movement(before, after).highlights;
    let start = Movement { drift, ..diff::still(sources::RULES@) };
    let found = diff::compared(start, b, a, watched, "rule"@);
    assert(found.highlights =~= promoted);
    assert(all == found.highlights + force_notices(found.modified, b, a));
    assert(all[j] == n);
}

proof fn lemma_class_notices(
    id: Seq<char>,
    before: Json,
    after: Json,
    classes: Seq<Seq<char>>,
    class: Seq<char>,
)
    ensures
        classes.contains(class) && class_force(before, class) != class_force(after, class)
            ==> class_notices(id, before, after, classes).contains(
            (Notice {
                kind: "force"@,
                id: id + " (class "@ + class + ")"@,
                field: "varies_by_class.force"@,
                from: or_absent(class_force(before, class)),
                to: or_absent(class_force(after, class)),
            }),
        ),
        forall|k: int|
            #![trigger class_notices(id, before, after, classes)[k]]
            0 <= k < class_notices(id, before, after, classes).len() ==> exists|c: Seq<char>|
                #![trigger class_force(before, c)]
                classes.contains(c) && class_force(before, c) != class_force(after, c)
                    && class_notices(id, before, after, classes)[k] == (Notice {
                    kind: "force"@,
                    id: id + " (class "@ + c + ")"@,
                    field: "varies_by_class.force"@,
                    from: or_absent(class_force(before, c)),
                    to: or_absent(class_force(after, c)),
                }),
    decreases classes.len(),
{
    if classes.len() > 0 {
        let front = classes.drop_last();
        lemma_class_notices(id, before, after, front, class);
        let rest = class_notices(id, before, after, front);
        let now = class_notices(id, before, after, classes);
        let n = Notice {
            kind: "force"@,
            id: id + " (class "@ + class + ")"@,
            field: "varies_by_class.force"@,
            from: or_absent(class_force(before, class)),
            to: or_absent(class_force(after, class)),
        };
        if classes.contains(class) && class_force(before, class) != class_force(after, class) {
            if classes.last() == class {
                assert(now[now.len() - 1] == n);
            } else {
                let i = choose|i: int| 0 <= i < classes.len() && classes[i] == class;
                assert(front[i] == class);
                let k = choose|k: int| 0 <= k < rest.len() && rest[k] == n;
                assert(now[k] == n);
            }
        }
        assert forall|k: int| #![trigger now[k]] 0 <= k < now.len() implies exists|c: Seq<char>|
            #![trigger class_force(before, c)]
            classes.contains(c) && class_force(before, c) != class_force(after, c) && now[k] == (
            Notice {
                kind: "force"@,
                id: id + " (class "@ + c + ")"@,
                field: "varies_by_class.force"@,
                from: or_absent(class_force(before, c)),
                to: or_absent(class_force(after, c)),
            }) by {
            if k < rest.len() {
                assert(now[k] == rest[k]);
                let c = choose|c: Seq<char>|
                    #![trigger class_force(before, c)]
                    front.contains(c) && class_force(before, c) != class_force(after, c) && rest[k]
                        == (Notice {
                        kind: "force"@,
                        id: id + " (class "@ + c + ")"@,
                        field: "varies_by_class.force"@,
                        from: or_absent(class_force(before, c)),
                        to: or_absent(class_force(after, c)),
                    });
                let i = choose|i: int| 0 <= i < front.len() && front[i] == c;
                assert(classes[i] == c);
            } else {
                let c = classes.last();
                assert(classes[classes.len() - 1] == c);
                assert(class_force(before, c) != class_force(after, c));
            }
        }
    }
}

proof fn lemma_force_notices(
    entries: Seq<Edit>,
    before: Seq<(Seq<char>, Json)>,
    after: Seq<(Seq<char>, Json)>,
    i: int,
    n: Notice,
)
    requires
        0 <= i < entries.len(),
        table::lookup(before, entries[i].id) is Some,
        table::lookup(after, entries[i].id) is Some,
        touches(entries[i].fields, "varies_by_class"@),
        ({
            let old_leaf = table::lookup(before, entries[i].id)->0;
            let new_leaf = table::lookup(after, entries[i].id)->0;
            class_notices(
                entries[i].id,
                old_leaf,
                new_leaf,
                classes_of(old_leaf, new_leaf),
            ).contains(n)
        }),
    ensures
        force_notices(entries, before, after).contains(n),
    decreases entries.len(),
{
    let front = entries.drop_last();
    let rest = force_notices(front, before, after);
    let now = force_notices(entries, before, after);
    if i < front.len() {
        assert(front[i] == entries[i]);
        lemma_force_notices(front, before, after, i, n);
        let k = choose|k: int| 0 <= k < rest.len() && rest[k] == n;
        assert(now[k] == n);
    } else {
        let old_leaf = table::lookup(before, entries[i].id)->0;
        let new_leaf = table::lookup(after, entries[i].id)->0;
        let more = class_notices(
            entries[i].id,
            old_leaf,
            new_leaf,
            classes_of(old_leaf, new_leaf),
        );
        let k = choose|k: int| 0 <= k < more.len() && more[k] == n;
        assert(now == rest + more);
        assert(now[rest.len() + k] == n);
    }
}

/// A rule whose force moved for one class alone is highlighted for that class,
/// from the old force to the new one.
pub proof fn law_class_force_is_highlighted(
    before: Json,
    after: Json,
    id: Seq<char>,
    class: Seq<char>,
    old_map: Seq<(Seq<char>, Json)>,
    new_map: Seq<(Seq<char>, Json)>,
)
    requires
        table::lookup(flattened(before).0, id) == Some(Json::Object(old_map)),
        table::lookup(flattened(after).0, id) == Some(Json::Object(new_map)),
        table::ordered(old_map),
        table::ordered(new_map),
        !json::agree_optional(
            table::lookup(old_map, "varies_by_class"@),
            table::lookup(new_map, "varies_by_class"@),
        ),
        class_force(Json::Object(old_map), class) != class_force(Json::Object(new_map), class),
    ensures
        movement(before, after).highlights.contains(
            (Notice {
                kind: "force"@,
                id: id + " (class "@ + class + ")"@,
                field: "varies_by_class.force"@,
                from: or_absent(class_force(Json::Object(old_map), class)),
                to: or_absent(class_force(Json::Object(new_map), class)),
            }),
        ),
{
    let b = flattened(before).0;
    let (a, drift) = flattened(after);
    law_leaves_are_ordered(before);
    let old_leaf = Json::Object(old_map);
    let new_leaf = Json::Object(new_map);
    let field = "varies_by_class"@;
    diff::law_field_moves_are_exact(old_map, new_map, field);
    diff::law_field_changes_mean_a_difference(old_map, new_map);
    let fields = diff::field_moves(old_leaf, new_leaf);
    let f = FieldMove {
        field,
        from: diff::rendered(table::lookup(old_map, field)),
        to: diff::rendered(table::lookup(new_map, field)),
    };
    let k = choose|k: int| 0 <= k < fields.len() && fields[k] == f;
    assert(fields[k].field == field);
    assert(touches(fields, field));
    diff::law_edits_are_exact(b, a, id);
    let entries = diff::edited(b, a);
    let e = Edit { id, fields };
    let i = choose|i: int| 0 <= i < entries.len() && entries[i] == e;
    let classes = classes_of(old_leaf, new_leaf);
    let old_classes = json::members_of(old_leaf.get(field));
    let new_classes = json::members_of(new_leaf.get(field));
    let names = table::keys(old_classes) + table::keys(new_classes);
    diff::law_sorted_names_are_the_names(names);
    let p = table::lemma_lookup_index(old_classes, class);
    let q = table::lemma_lookup_index(new_classes, class);
    if table::lookup(old_classes, class) is Some {
        assert(names[p] == class);
    } else if table::lookup(new_classes, class) is Some {
        assert(names[old_classes.len() + q] == class);
    } else {
        assert(class_force(old_leaf, class) is None);
        assert(class_force(new_leaf, class) is None);
    }
    assert(classes.contains(class));
    lemma_class_notices(id, old_leaf, new_leaf, classes, class);
    let n = Notice {
        kind: "force"@,
        id: id + " (class "@ + class + ")"@,
        field: "varies_by_class.force"@,
        from: or_absent(class_force(old_leaf, class)),
        to: or_absent(class_force(new_leaf, class)),
    };
    lemma_force_notices(entries, b, a, i, n);
    let start = Movement { drift, ..diff::still(sources::RULES@) };
    let found = diff::compared(start, b, a, highlight_fields(), "rule"@);
    assert(found.modified =~= entries);
    let more = force_notices(found.modified, b, a);
    let j = choose|j: int| 0 <= j < more.len() && more[j] == n;
    let all = movement(before, after).highlights;
    assert(all == found.highlights + more);
    assert(all[found.highlights.len() + j] == n);
}

/// Where the document's own `info` moved, that is counted; where nothing else
/// moved, the change is one of metadata, and where nothing moved at all there is
/// none. What drifted is what the new document shows.
pub proof fn law_severity_is_by_what_moved(before: Json, after: Json)
    ensures
        movement(before, after).changed <==> movement(before, after).severity
            != Severity::Unchanged,
        movement(before, after).severity == Severity::Major <==> movement(
            before,
            after,
        ).added.len() + movement(before, after).removed.len() + movement(
            before,
            after,
        ).modified.len() > 0,
        movement(before, after).severity == Severity::Unchanged <==> movement(
            before,
            after,
        ).added.len() + movement(before, after).removed.len() + movement(
            before,
            after,
        ).modified.len() == 0 && json::agree_optional(before.get("info"@), after.get("info"@)),
        table::lookup(movement(before, after).counts, "info_fields_moved"@) == (
        if json::agree_optional(before.get("info"@), after.get("info"@)) {
            None
        } else {
            Some(1usize)
        }),
        movement(before, after).drift == flattened(after).1,
        movement(before, after).source == "rules"@,
{
    let b = flattened(before).0;
    let (a, drift) = flattened(after);
    let start = Movement { drift, ..diff::still(sources::RULES@) };
    let found = diff::compared(start, b, a, highlight_fields(), "rule"@);
    assert(found.counts =~= Seq::empty());
    table::lemma_put_lookup(found.counts, "info_fields_moved"@, 1, "info_fields_moved"@);
}

proof fn lemma_force_notice_kind(
    entries: Seq<Edit>,
    before: Seq<(Seq<char>, Json)>,
    after: Seq<(Seq<char>, Json)>,
    k: int,
)
    requires
        0 <= k < force_notices(entries, before, after).len(),
    ensures
        force_notices(entries, before, after)[k].kind == "force"@,
        force_notices(entries, before, after)[k].field == "varies_by_class.force"@,
    decreases entries.len(),
{
    if entries.len() > 0 {
        let front = entries.drop_last();
        let rest = force_notices(front, before, after);
        if k < rest.len() {
            lemma_force_notice_kind(front, before, after, k);
        } else {
            let entry = entries.last();
            let old_leaf = table::lookup(before, entry.id)->0;
            let new_leaf = table::lookup(after, entry.id)->0;
            let classes = classes_of(old_leaf, new_leaf);
            lemma_class_notices(entry.id, old_leaf, new_leaf, classes, Seq::empty());
            let more = class_notices(entry.id, old_leaf, new_leaf, classes);
            assert(force_notices(entries, before, after) == rest + more);
            assert(more[k - rest.len()] == force_notices(entries, before, after)[k]);
        }
    }
}

/// Nothing else is highlighted: a highlight is of a watched field of a rule that
/// was modified, or of the force of one class.
pub proof fn law_only_watched_fields_are_highlighted(before: Json, after: Json, n: Notice)
    requires
        movement(before, after).highlights.contains(n),
    ensures
        n.kind == "rule"@ && (n.field == "force"@ || n.field == "status"@ || n.field
            == "effective"@) && (exists|i: int|
            0 <= i < movement(before, after).modified.len() && (#[trigger] movement(
                before,
                after,
            ).modified[i]).id == n.id) || n.kind == "force"@ && n.field
            == "varies_by_class.force"@,
{
    let b = flattened(before).0;
    let (a, drift) = flattened(after);
    let start = Movement { drift, ..diff::still(sources::RULES@) };
    let watched = highlight_fields();
    let found = diff::compared(start, b, a, watched, "rule"@);
    let more = force_notices(found.modified, b, a);
    let all = movement(before, after).highlights;
    assert(all == found.highlights + more);
    let k = choose|k: int| 0 <= k < all.len() && all[k] == n;
    if k < found.highlights.len() {
        assert(found.highlights[k] == n);
        diff::lemma_only_watched(start, b, a, watched, "rule"@, n);
        let w = choose|w: int| 0 <= w < watched.len() && watched[w] == n.field;
        assert(w == 0 || w == 1 || w == 2);
        let entries = diff::edited(b, a);
        let i = choose|i: int|
            0 <= i < entries.len() && (#[trigger] entries[i]).id == n.id
                && entries[i].fields.contains(
                (FieldMove { field: n.field, from: n.from, to: n.to }),
            );
        assert(movement(before, after).modified =~= entries);
        assert(movement(before, after).modified[i].id == n.id);
    } else {
        lemma_force_notice_kind(found.modified, b, a, k - found.highlights.len());
        assert(more[k - found.highlights.len()] == n);
    }
}

/// The force of a rule for one class is what its variant for that class says.
pub proof fn law_class_force_is_its_variants(leaf: Json, class: Seq<char>)
    ensures
        class_force(leaf, class) == (match leaf.get("varies_by_class"@) {
            Some(variants) => match variants.get(class) {
                Some(variant) => match variant.get("force"@) {
                    Some(Json::Text(force)) => Some(force),
                    _ => None,
                },
                None => None,
            },
            None => None,
        }),
        or_absent(None) == "(absent)"@,
        forall|force: Seq<char>| #[trigger] or_absent(Some(force)) == force,
{
}

proof fn lemma_same_but_info(a: Seq<(Seq<char>, Json)>, b: Seq<(Seq<char>, Json)>)
    requires
        a.len() == b.len(),
        forall|i: int|
            #![trigger a[i]]
            0 <= i < a.len() ==> a[i].0 == b[i].0 && (a[i].0 != "info"@ ==> a[i].1 == b[i].1),
    ensures
        sections(a) == sections(b),
    decreases a.len(),
{
    if a.len() > 0 {
        let x = a.drop_last();
        let y = b.drop_last();
        assert forall|i: int| #![trigger x[i]] 0 <= i < x.len() implies x[i].0 == y[i].0 && (x[i].0
            != "info"@ ==> x[i].1 == y[i].1) by {
            assert(a[i] == x[i] && b[i] == y[i]);
        }
        lemma_same_but_info(x, y);
        assert(a[a.len() - 1].0 == b[b.len() - 1].0);
    }
}

proof fn lemma_same_keys(a: Seq<(Seq<char>, Json)>, b: Seq<(Seq<char>, Json)>, key: Seq<char>)
    requires
        a.len() == b.len(),
        forall|i: int| #![trigger a[i]] 0 <= i < a.len() ==> a[i].0 == b[i].0,
    ensures
        table::lookup(a, key) is None <==> table::lookup(b, key) is None,
{
    let i = table::lemma_lookup_index(a, key);
    let j = table::lemma_lookup_index(b, key);
    if table::lookup(a, key) is Some && table::lookup(b, key) is None {
        assert(a[i].0 == b[i].0);
    }
    if table::lookup(b, key) is Some && table::lookup(a, key) is None {
        assert(a[j].0 == b[j].0);
    }
}

/// Two rulesets that differ in their own `info` alone have changed in their
/// metadata and in no rule.
pub proof fn law_only_info_moved_is_metadata(
    x: Seq<(Seq<char>, Json)>,
    y: Seq<(Seq<char>, Json)>,
)
    requires
        x.len() == y.len(),
        forall|i: int|
            #![trigger x[i]]
            0 <= i < x.len() ==> x[i].0 == y[i].0 && (x[i].0 != "info"@ ==> x[i].1 == y[i].1),
        !json::agree_optional(
            table::lookup(x, "info"@),
            table::lookup(y, "info"@),
        ),
    ensures
        ({
            let found = movement(Json::Object(x), Json::Object(y));
            &&& found.changed
            &&& found.severity == Severity::Metadata
            &&& found.added.len() == 0 && found.removed.len() == 0 && found.modified.len() == 0
            &&& found.highlights.len() == 0
        }),
{
    lemma_same_but_info(x, y);
    lemma_same_keys(x, y, "FRD"@);
    lemma_same_keys(x, y, "FRR"@);
    lemma_same_keys(x, y, "KSI"@);
    lemma_same_keys(x, y, "CTL"@);
    let before = Json::Object(x);
    let after = Json::Object(y);
    assert(flattened(before) == flattened(after));
    law_info_alone_is_metadata(before, after);
    let (leaves, drift) = flattened(after);
    let start = Movement { drift, ..diff::still(sources::RULES@) };
    law_leaves_are_ordered(after);
    diff::law_same_maps_compare_equal(start, leaves, highlight_fields(), "rule"@);
}

} // verus!
