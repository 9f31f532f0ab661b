//! CISA Known Exploited Vulnerabilities diff.
//!
//! FedRAMP defines KEV as a term (`FRD-KEV`) and hangs remediation duties off
//! it, so the catalog turns "respond to known exploited vulnerabilities" from
//! prose into a list with due dates.
//!
//! CISA publishes two to three times a week and the catalog only grows, so an
//! added CVE is `minor` — a real event a provider must act on — while edits to
//! an existing entry are `routine`.

use vstd::prelude::*;

use crate::diff;
use crate::diff::rules;
use crate::diff::{Delta, Movement, Notice};
use crate::json;
use crate::json::{Doc, Json};
use crate::severity::Severity;
use crate::sources;
use crate::table;
use crate::table::Table;
use crate::text;

verus! {

/// Fields that change what a provider must do, and by when.
pub open spec fn highlight_fields() -> Seq<Seq<char>> {
    seq!["dueDate"@, "requiredAction"@, "knownRansomwareCampaignUse"@]
}

/// Entries by CVE id; a later one replaces an earlier one, and one without an
/// id is left out.
pub open spec fn by_cve(entries: Seq<Json>) -> Seq<(Seq<char>, Json)>
    decreases entries.len(),
{
    if entries.len() == 0 {
        Seq::empty()
    } else {
        let rest = by_cve(entries.drop_last());
        match entries.last().text_at("cveID"@) {
            Some(id) => table::put(rest, id, entries.last()),
            None => rest,
        }
    }
}

pub open spec fn vulnerabilities(doc: Json) -> Seq<(Seq<char>, Json)> {
    by_cve(json::items_of(doc, "vulnerabilities"@))
}

/// Keyed by CVE id, which is unique in the catalog.
pub fn flatten(doc: &Doc) -> (map: Table<Doc>)
    ensures
        map.members() == vulnerabilities(doc@),
{
    broadcast use json::lemma_members;

    let mut map: Table<Doc> = Table::new();
    let ghost all = json::items_of(doc@, "vulnerabilities"@);
    assert(map.members() =~= by_cve(all.take(0)));
    match json::array_member(doc, "vulnerabilities") {
        Some(entries) => {
            let mut i: usize = 0;
            while i < entries.len()
                invariant
                    i <= entries@.len(),
                    all == json::jsons(entries@),
                    map.members() == by_cve(all.take(i as int)),
                decreases entries@.len() - i,
            {
                let entry = &entries[i];
                proof {
                    assert(all.take(i + 1).drop_last() =~= all.take(i as int));
                    assert(all.take(i + 1).last() == entry@);
                }
                match json::text_member(entry, "cveID") {
                    Some(id) => {
                        map.set(id, entry.duplicate());
                    },
                    None => {},
                }
                i += 1;
            }
        },
        None => {},
    }
    assert(all.take(all.len() as int) =~= all);
    map
}

/// What moved between two catalogs.
pub open spec fn movement(before: Json, after: Json) -> Movement {
    let found = diff::compared(
        diff::still(sources::KEV@),
        vulnerabilities(before),
        vulnerabilities(after),
        highlight_fields(),
        "kev"@,
    );
    Movement {
        changed: !found.quiet(),
        severity: if found.added.len() > 0 || found.removed.len() > 0 {
            Severity::Minor
        } else if !found.quiet() {
            Severity::Routine
        } else {
            Severity::Unchanged
        },
        ..found
    }
}

pub fn diff(before: &Doc, after: &Doc) -> (delta: Delta)
    ensures
        delta@ == movement(before@, after@),
{
    let mut delta = Delta::new(sources::KEV);
    let old_entries = flatten(before);
    let new_entries = flatten(after);
    let fields = ["dueDate", "requiredAction", "knownRansomwareCampaignUse"];
    assert(json::strs(fields@) =~= highlight_fields());
    diff::compare_maps(&old_entries, &new_entries, &mut delta, &fields, "kev");
    assert(delta@.added.len() == delta.added@.len());
    assert(delta@.removed.len() == delta.removed@.len());
    delta.changed = !delta.is_empty();
    delta.severity = if delta.added.len() > 0 || delta.removed.len() > 0 {
        Severity::Minor
    } else if delta.changed {
        Severity::Routine
    } else {
        Severity::Unchanged
    };
    delta
}

// Governing rules.

/// The texts among some values, in lower case.
pub open spec fn lowered(values: Seq<Json>) -> Seq<Seq<char>>
    decreases values.len(),
{
    if values.len() == 0 {
        Seq::empty()
    } else {
        match values.last() {
            Json::Text(s) => lowered(values.drop_last()).push(text::lower_text(s)),
            _ => lowered(values.drop_last()),
        }
    }
}

/// What FedRAMP calls a known exploited vulnerability.
pub open spec fn aliases(rules: Json) -> Seq<Seq<char>> {
    match json::at(rules, seq!["FRD"@, "data"@, "all"@, "FRD-KEV"@, "alts"@]) {
        Some(Json::Array(alts)) => lowered(alts),
        _ => seq!["known exploited vulnerabilit"@],
    }
}

pub open spec fn mentions(s: Seq<char>, aliases: Seq<Seq<char>>) -> bool {
    exists|i: int| 0 <= i < aliases.len() && text::holds(s, #[trigger] aliases[i])
}

/// A rule's statement, in lower case.
pub open spec fn statement(leaf: Json) -> Seq<char> {
    text::lower_text(
        match leaf.text_at("statement"@) {
            Some(s) => s,
            None => ""@,
        },
    )
}

/// The ids of the rules whose statement mentions an alias.
pub open spec fn governing(
    leaves: Seq<(Seq<char>, Json)>,
    aliases: Seq<Seq<char>>,
) -> Seq<Seq<char>>
    decreases leaves.len(),
{
    if leaves.len() == 0 {
        Seq::empty()
    } else {
        let rest = governing(leaves.drop_last(), aliases);
        let (path, leaf) = leaves.last();
        if text::begins(path, "FRR/"@) && mentions(statement(leaf), aliases) {
            rest.push(text::after_last(path, '/'))
        } else {
            rest
        }
    }
}

fn alias_list(rules: &Doc) -> (list: Vec<String>)
    ensures
        text::texts(list@) == aliases(rules@),
{
    broadcast use json::lemma_array_json;

    let mut list: Vec<String> = Vec::new();
    let path = ["FRD", "data", "all", "FRD-KEV", "alts"];
    assert(json::strs(path@) =~= seq!["FRD"@, "data"@, "all"@, "FRD-KEV"@, "alts"@]);
    match json::value_at(rules, &path) {
        Some(Doc::Array(alts)) => {
            let ghost all = json::jsons(alts@);
            let mut i: usize = 0;
            assert(text::texts(list@) =~= lowered(all.take(0)));
            while i < alts.len()
                invariant
                    i <= alts@.len(),
                    all == json::jsons(alts@),
                    text::texts(list@) == lowered(all.take(i as int)),
                decreases alts@.len() - i,
            {
                proof {
                    assert(all.take(i + 1).drop_last() =~= all.take(i as int));
                    assert(all.take(i + 1).last() == alts@[i as int]@);
                }
                match alts[i].as_str() {
                    Some(s) => {
                        let lower = s.to_lowercase();
                        proof {
                            text::lemma_texts_push(list@, lower);
                        }
                        list.push(lower);
                    },
                    None => {},
                }
                i += 1;
            }
            assert(all.take(all.len() as int) =~= all);
        },
        _ => {
            let only = "known exploited vulnerabilit".to_owned();
            assert(text::texts(list@.push(only)) =~= seq![only@]);
            list.push(only);
        },
    }
    list
}

fn mentions_any(s: &str, aliases: &Vec<String>) -> (yes: bool)
    ensures
        yes == mentions(s@, text::texts(aliases@)),
{
    let mut i: usize = 0;
    while i < aliases.len()
        invariant
            i <= aliases@.len(),
            forall|j: int| 0 <= j < i ==> !text::holds(s@, #[trigger] text::texts(aliases@)[j]),
        decreases aliases@.len() - i,
    {
        if text::text_contains(s, aliases[i].as_str()) {
            assert(text::holds(s@, text::texts(aliases@)[i as int]));
            return true;
        }
        i += 1;
    }
    false
}

/// The FedRAMP rules that govern known-exploited vulnerabilities, found via the
/// aliases FedRAMP itself defines in `FRD-KEV`.
pub fn governing_rules(rules: &Doc) -> (ids: Vec<String>)
    ensures
        text::texts(ids@) == diff::sorted_names(
            governing(rules::flattened(rules@).0, aliases(rules@)),
        ),
{
    broadcast use json::lemma_members;

    let list = alias_list(rules);
    let (leaves, _drift) = rules::flatten(rules);
    let mut found: Vec<String> = Vec::new();
    let ghost all = leaves.members();
    let ghost names = aliases(rules@);
    let mut i: usize = 0;
    assert(text::texts(found@) =~= governing(all.take(0), names));
    while i < leaves.len()
        invariant
            i <= leaves@.len(),
            all == leaves.members(),
            all == json::deep(leaves@),
            names == text::texts(list@),
            text::texts(found@) == governing(all.take(i as int), names),
        decreases leaves@.len() - i,
    {
        let path = leaves.key(i);
        let leaf = leaves.value(i);
        proof {
            assert(all.take(i + 1).drop_last() =~= all.take(i as int));
            assert(all.take(i + 1).last() == (path@, leaf@));
        }
        if text::starts_with(path, "FRR/") {
            let wording = match json::text_member(leaf, "statement") {
                Some(s) => s.to_lowercase(),
                None => "".to_lowercase(),
            };
            if mentions_any(wording.as_str(), &list) {
                let id = text::tail_after(path, '/');
                proof {
                    text::lemma_texts_push(found@, id);
                }
                found.push(id);
            }
        }
        i += 1;
    }
    assert(all.take(all.len() as int) =~= all);
    diff::key_list(&diff::name_table(&found))
}

// Laws.

proof fn lemma_by_cve_ordered(entries: Seq<Json>)
    ensures
        table::ordered(by_cve(entries)),
    decreases entries.len(),
{
    if entries.len() > 0 {
        lemma_by_cve_ordered(entries.drop_last());
        if entries.last().text_at("cveID"@) is Some {
            table::lemma_put_ordered(
                by_cve(entries.drop_last()),
                entries.last().text_at("cveID"@)->Some_0,
                entries.last(),
            );
        }
    }
}

/// Only the vulnerability list counts: two catalogs with the same one differ in
/// nothing, whatever stands around it.
pub proof fn law_only_the_list_counts(before: Json, after: Json)
    requires
        vulnerabilities(before) == vulnerabilities(after),
    ensures
        movement(before, after) == diff::still(sources::KEV@),
{
    lemma_by_cve_ordered(json::items_of(before, "vulnerabilities"@));
    diff::law_same_maps_compare_equal(
        diff::still(sources::KEV@),
        vulnerabilities(before),
        highlight_fields(),
        "kev"@,
    );
}

/// A vulnerability that came or went is minor.
pub proof fn law_membership_is_minor(before: Json, after: Json)
    requires
        diff::absent_keys(vulnerabilities(after), vulnerabilities(before)).len()
            + diff::absent_keys(vulnerabilities(before), vulnerabilities(after)).len() > 0,
    ensures
        movement(before, after).changed,
        movement(before, after).severity == Severity::Minor,
{
}

// What the list holds.

/// Each entry of the list stands under its own CVE id, the last one where an id
/// comes twice, and nothing else does.
pub proof fn law_entries_stand_under_their_cve(entries: Seq<Json>, id: Seq<char>)
    ensures
        table::ordered(by_cve(entries)),
        table::lookup(by_cve(entries), id) is Some <==> exists|i: int|
            0 <= i < entries.len() && (#[trigger] entries[i]).get("cveID"@) == Some(Json::Text(id)),
        table::lookup(by_cve(entries), id) matches Some(v) ==> v.get("cveID"@) == Some(
            Json::Text(id),
        ) && exists|i: int|
            0 <= i < entries.len() && #[trigger] entries[i] == v && forall|j: int|
                i < j < entries.len() ==> (#[trigger] entries[j]).get("cveID"@) != Some(
                    Json::Text(id),
                ),
    decreases entries.len(),
{
    lemma_by_cve_ordered(entries);
    if entries.len() > 0 {
        let front = entries.drop_last();
        let last = entries[entries.len() - 1];
        law_entries_stand_under_their_cve(front, id);
        if let Some(cve) = last.text_at("cveID"@) {
            table::lemma_put_lookup(by_cve(front), cve, last, id);
        }
        if last.get("cveID"@) == Some(Json::Text(id)) {
            assert(entries[entries.len() - 1] == last);
        } else {
            if let Some(v) = table::lookup(by_cve(front), id) {
                let i = choose|i: int|
                    0 <= i < front.len() && #[trigger] front[i] == v && forall|j: int|
                        i < j < front.len() ==> (#[trigger] front[j]).get("cveID"@) != Some(
                            Json::Text(id),
                        );
                assert(entries[i] == v);
                assert forall|j: int| i < j < entries.len() implies (#[trigger] entries[j]).get(
                    "cveID"@,
                ) != Some(Json::Text(id)) by {
                    if j < front.len() {
                        assert(front[j] == entries[j]);
                    }
                }
            }
            if exists|i: int|
                0 <= i < entries.len() && (#[trigger] entries[i]).get("cveID"@) == Some(
                    Json::Text(id),
                ) {
                let i = choose|i: int|
                    0 <= i < entries.len() && (#[trigger] entries[i]).get("cveID"@) == Some(
                        Json::Text(id),
                    );
                assert(front[i] == entries[i]);
            }
        }
    }
}

/// What moved in the list is, entry by entry, what one list has and the other
/// lacks and what both have with values that disagree; a change of who is on the
/// list is louder than one of what it says.
pub proof fn law_every_entry_is_compared(before: Json, after: Json, id: Seq<char>)
    ensures
        ({
            let old_entry = table::lookup(vulnerabilities(before), id);
            let new_entry = table::lookup(vulnerabilities(after), id);
            let found = movement(before, after);
            &&& found.added.contains(id) <==> old_entry is None && new_entry is Some
            &&& found.removed.contains(id) <==> old_entry is Some && new_entry is None
            &&& (exists|k: int|
                0 <= k < found.modified.len() && (#[trigger] found.modified[k]).id == id) <==> (
            old_entry is Some && new_entry is Some && !json::agree(old_entry->0, new_entry->0))
            &&& forall|k: int|
                0 <= k < found.modified.len() && (#[trigger] found.modified[k]).id == id
                    ==> found.modified[k].fields == diff::field_moves(old_entry->0, new_entry->0)
            &&& found.severity == Severity::Minor <==> found.added.len() + found.removed.len() > 0
            &&& found.severity == Severity::Routine <==> found.added.len() + found.removed.len()
                == 0 && found.modified.len() > 0
            &&& found.changed <==> found.severity != Severity::Unchanged
            &&& found.source == "kev"@
        }),
{
    let b = vulnerabilities(before);
    let a = vulnerabilities(after);
    law_entries_stand_under_their_cve(json::items_of(before, "vulnerabilities"@), id);
    diff::law_comparison_is_exact(
        diff::still(sources::KEV@),
        b,
        a,
        highlight_fields(),
        "kev"@,
        id,
    );
    let found = diff::compared(diff::still(sources::KEV@), b, a, highlight_fields(), "kev"@);
    let m = movement(before, after);
    assert(m.added == found.added && m.removed == found.removed && m.modified == found.modified);
    assert(found.counts.len() == 0);
}

/// A due date, a required action or a use by ransomware that moved is highlighted
/// with its old value and its new one.
pub proof fn law_watched_fields_are_highlighted(
    before: Json,
    after: Json,
    id: Seq<char>,
    field: Seq<char>,
    old_map: Seq<(Seq<char>, Json)>,
    new_map: Seq<(Seq<char>, Json)>,
)
    requires
        table::lookup(vulnerabilities(before), id) == Some(Json::Object(old_map)),
        table::lookup(vulnerabilities(after), id) == Some(Json::Object(new_map)),
        table::ordered(old_map),
        table::ordered(new_map),
        field == "dueDate"@ || field == "requiredAction"@ || field == "knownRansomwareCampaignUse"@,
        !json::agree_optional(table::lookup(old_map, field), table::lookup(new_map, field)),
    ensures
        movement(before, after).highlights.contains(
            (Notice {
                kind: "kev"@,
                id,
                field,
                from: diff::rendered(table::lookup(old_map, field)),
                to: diff::rendered(table::lookup(new_map, field)),
            }),
        ),
{
    law_entries_stand_under_their_cve(json::items_of(before, "vulnerabilities"@), id);
    let watched = highlight_fields();
    assert(watched[0] == "dueDate"@ && watched[1] == "requiredAction"@ && watched[2]
        == "knownRansomwareCampaignUse"@);
    assert(watched.contains(field));
    diff::lemma_watched(
        diff::still(sources::KEV@),
        vulnerabilities(before),
        vulnerabilities(after),
        watched,
        "kev"@,
        id,
        field,
        old_map,
        new_map,
    );
}

/// The rules that govern the list are exactly those of the rule families whose
/// statement, in lower case, holds one of its names.
pub proof fn law_governing_rules_are_exact(
    leaves: Seq<(Seq<char>, Json)>,
    names: Seq<Seq<char>>,
    id: Seq<char>,
)
    ensures
        governing(leaves, names).contains(id) <==> exists|i: int|
            0 <= i < leaves.len() && text::begins((#[trigger] leaves[i]).0, "FRR/"@) && text::split(
                leaves[i].0,
                '/',
            ).last() == id && exists|k: int|
                0 <= k < names.len() && text::holds(statement(leaves[i].1), #[trigger] names[k]),
    decreases leaves.len(),
{
    if leaves.len() > 0 {
        let front = leaves.drop_last();
        let last = leaves[leaves.len() - 1];
        law_governing_rules_are_exact(front, names, id);
        text::law_after_last_is_the_last_piece(last.0, '/');
        let rest = governing(front, names);
        let now = governing(leaves, names);
        if rest.contains(id) {
            let k = choose|k: int| 0 <= k < rest.len() && rest[k] == id;
            assert(now[k] == id);
            let i = choose|i: int|
                0 <= i < front.len() && text::begins((#[trigger] front[i]).0, "FRR/"@)
                    && text::split(front[i].0, '/').last() == id && exists|k: int|
                    0 <= k < names.len() && text::holds(statement(front[i].1), #[trigger] names[k]);
            assert(leaves[i] == front[i]);
        }
        if now.contains(id) {
            let k = choose|k: int| 0 <= k < now.len() && now[k] == id;
            if k < rest.len() {
                assert(rest[k] == id);
            } else {
                assert(leaves[leaves.len() - 1] == last);
                assert(mentions(statement(last.1), names));
            }
        }
        if exists|i: int|
            0 <= i < leaves.len() && text::begins((#[trigger] leaves[i]).0, "FRR/"@) && text::split(
                leaves[i].0,
                '/',
            ).last() == id && exists|k: int|
                0 <= k < names.len() && text::holds(statement(leaves[i].1), #[trigger] names[k]) {
            let i = choose|i: int|
                0 <= i < leaves.len() && text::begins((#[trigger] leaves[i]).0, "FRR/"@)
                    && text::split(leaves[i].0, '/').last() == id && exists|k: int|
                    0 <= k < names.len() && text::holds(
                        statement(leaves[i].1),
                        #[trigger] names[k],
                    );
            if i < front.len() {
                assert(front[i] == leaves[i]);
            } else {
                assert(now[now.len() - 1] == id);
            }
        }
    }
}

proof fn lemma_lowered(values: Seq<Json>, name: Seq<char>)
    ensures
        lowered(values).contains(name) <==> exists|i: int|
            0 <= i < values.len() && ((#[trigger] values[i]) matches Json::Text(s)
                && text::lower_text(s) == name),
    decreases values.len(),
{
    if values.len() > 0 {
        let front = values.drop_last();
        lemma_lowered(front, name);
        let rest = lowered(front);
        let now = lowered(values);
        if rest.contains(name) {
            let k = choose|k: int| 0 <= k < rest.len() && rest[k] == name;
            assert(now[k] == name);
            let i = choose|i: int|
                0 <= i < front.len() && ((#[trigger] front[i]) matches Json::Text(s)
                    && text::lower_text(s) == name);
            assert(values[i] == front[i]);
        }
        if now.contains(name) {
            let k = choose|k: int| 0 <= k < now.len() && now[k] == name;
            if k < rest.len() {
                assert(rest[k] == name);
            } else {
                assert(values[values.len() - 1] == values.last());
            }
        }
        if exists|i: int|
            0 <= i < values.len() && ((#[trigger] values[i]) matches Json::Text(s)
                && text::lower_text(s) == name) {
            let i = choose|i: int|
                0 <= i < values.len() && ((#[trigger] values[i]) matches Json::Text(s)
                    && text::lower_text(s) == name);
            if i < front.len() {
                assert(front[i] == values[i]);
            } else {
                assert(now[now.len() - 1] == name);
            }
        }
    }
}

/// The list's names are those that its definition in the rules gives it, in lower
/// case, or one of its own where there is no such definition.
pub proof fn law_names_are_the_definitions(rules: Json, name: Seq<char>)
    ensures
        match json::at(rules, seq!["FRD"@, "data"@, "all"@, "FRD-KEV"@, "alts"@]) {
            Some(Json::Array(alts)) => aliases(rules).contains(name) <==> exists|i: int|
                0 <= i < alts.len() && ((#[trigger] alts[i]) matches Json::Text(s)
                    && text::lower_text(s) == name),
            _ => aliases(rules).contains(name) <==> name == "known exploited vulnerabilit"@,
        },
{
    match json::at(rules, seq!["FRD"@, "data"@, "all"@, "FRD-KEV"@, "alts"@]) {
        Some(Json::Array(alts)) => {
            lemma_lowered(alts, name);
        },
        _ => {
            assert(aliases(rules)[0] == "known exploited vulnerabilit"@);
        },
    }
}

/// Nothing else is highlighted.
pub proof fn law_only_watched_fields_are_highlighted(before: Json, after: Json, n: Notice)
    requires
        movement(before, after).highlights.contains(n),
    ensures
        n.kind == "kev"@,
        n.field == "dueDate"@ || n.field == "requiredAction"@ || n.field
            == "knownRansomwareCampaignUse"@,
        exists|i: int|
            0 <= i < movement(before, after).modified.len() && (#[trigger] movement(
                before,
                after,
            ).modified[i]).id == n.id,
{
    let b = vulnerabilities(before);
    let a = vulnerabilities(after);
    let start = diff::still(sources::KEV@);
    let watched = highlight_fields();
    diff::lemma_only_watched(start, b, a, watched, "kev"@, n);
    let k = choose|k: int| 0 <= k < watched.len() && watched[k] == n.field;
    assert(k == 0 || k == 1 || k == 2);
    let entries = diff::edited(b, a);
    let i = choose|i: int|
        0 <= i < entries.len() && (#[trigger] entries[i]).id == n.id && entries[i].fields.contains(
            (diff::FieldMove { field: n.field, from: n.from, to: n.to }),
        );
    assert(movement(before, after).modified =~= entries);
    assert(movement(before, after).modified[i].id == n.id);
}

/// The list is the `vulnerabilities` member of its document.
pub proof fn law_list_is_the_vulnerabilities_member(doc: Json, entries: Seq<Json>)
    requires
        doc.get("vulnerabilities"@) == Some(Json::Array(entries)),
    ensures
        vulnerabilities(doc) == by_cve(entries),
{
}

/// What is searched for the list's names is a rule's own statement, in lower case.
pub proof fn law_statement_is_the_rules_own(leaf: Json)
    ensures
        leaf.get("statement"@) matches Some(Json::Text(s)) ==> statement(leaf) == text::lower_text(s),
{
}

} // verus!
