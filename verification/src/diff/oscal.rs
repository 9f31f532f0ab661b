//! NIST 800-53 catalog diff.
//!
//! Severity here is **relative to FedRAMP**: 800-53 carries 1,196 controls and
//! FedRAMP references 284 of them. A change to `pm-31` matters to us only if
//! FedRAMP points at it, so a control the ruleset references is `major` and
//! everything else is `routine`. Without that, one NIST revision would drown a
//! rules change in noise — the same failure the marketplace projection avoids.

use vstd::prelude::*;

use crate::diff;
use crate::diff::{Delta, Edit, Highlight, Movement, Notice};
use crate::json;
use crate::json::{Doc, Json};
use crate::severity::Severity;
use crate::sources;
use crate::table;
use crate::table::Table;
use crate::text;

verus! {

// The catalog.

/// The controls at or below a node, by id: those of its groups, then its own
/// with their enhancements. A later control replaces an earlier one.
pub open spec fn catalogued(
    node: Json,
    out: Seq<(Seq<char>, Json)>,
) -> Seq<(Seq<char>, Json)>
    decreases
            node,
            json::items_of(node, "groups"@).len() + json::items_of(node, "controls"@).len() + 1,
{
    controls_in(
        node,
        json::items_of(node, "controls"@).len(),
        groups_in(node, json::items_of(node, "groups"@).len(), out),
    )
}

/// The controls of a node's first `n` groups.
pub open spec fn groups_in(
    node: Json,
    n: nat,
    out: Seq<(Seq<char>, Json)>,
) -> Seq<(Seq<char>, Json)>
    decreases node, n,
    via groups_in_decreases
{
    let items = json::items_of(node, "groups"@);
    if n == 0 || n > items.len() {
        out
    } else {
        catalogued(items[n - 1], groups_in(node, (n - 1) as nat, out))
    }
}

/// A node's first `n` controls, each with what is below it.
pub open spec fn controls_in(
    node: Json,
    n: nat,
    out: Seq<(Seq<char>, Json)>,
) -> Seq<(Seq<char>, Json)>
    decreases node, n,
    via controls_in_decreases
{
    let items = json::items_of(node, "controls"@);
    if n == 0 || n > items.len() {
        out
    } else {
        let before = controls_in(node, (n - 1) as nat, out);
        let control = items[n - 1];
        catalogued(
            control,
            match control.text_at("id"@) {
                Some(id) => table::put(before, id, control),
                None => before,
            },
        )
    }
}

#[via_fn]
proof fn groups_in_decreases(node: Json, n: nat, out: Seq<(Seq<char>, Json)>) {
    if 0 < n <= json::items_of(node, "groups"@).len() {
        json::lemma_item_smaller(node, "groups"@, n - 1);
    }
}

#[via_fn]
proof fn controls_in_decreases(node: Json, n: nat, out: Seq<(Seq<char>, Json)>) {
    if 0 < n <= json::items_of(node, "controls"@).len() {
        json::lemma_item_smaller(node, "controls"@, n - 1);
    }
}

/// The catalog as `control id -> control`, enhancements included.
pub open spec fn controls_of(doc: Json) -> Seq<(Seq<char>, Json)> {
    match doc.get("catalog"@) {
        Some(catalog) => catalogued(catalog, Seq::empty()),
        None => Seq::empty(),
    }
}

fn collect(node: &Doc, out: &mut Table<Doc>)
    ensures
        final(out).members() == catalogued(node@, old(out).members()),
    decreases node@,
{
    let ghost start = out.members();
    match json::array_member(node, "groups") {
        Some(groups) => {
            let mut i: usize = 0;
            while i < groups.len()
                invariant
                    i <= groups@.len(),
                    json::items_of(node@, "groups"@) == json::jsons(groups@),
                    out.members() == groups_in(node@, i as nat, start),
                decreases groups@.len() - i,
            {
                proof {
                    json::lemma_item_smaller(node@, "groups"@, i as int);
                }
                collect(&groups[i], out);
                i += 1;
            }
        },
        None => {},
    }
    let ghost middle = out.members();
    match json::array_member(node, "controls") {
        Some(controls) => {
            let mut i: usize = 0;
            while i < controls.len()
                invariant
                    i <= controls@.len(),
                    json::items_of(node@, "controls"@) == json::jsons(controls@),
                    out.members() == controls_in(node@, i as nat, middle),
                decreases controls@.len() - i,
            {
                let control = &controls[i];
                proof {
                    json::lemma_item_smaller(node@, "controls"@, i as int);
                }
                match json::text_member(control, "id") {
                    Some(id) => {
                        out.set(id, control.duplicate());
                    },
                    None => {},
                }
                collect(control, out);
                i += 1;
            }
        },
        None => {},
    }
}

/// Flatten the catalog to `control id -> control`, enhancements included.
/// Ids are OSCAL's own lowercase dotted form (`ac-6.1`).
pub fn flatten(doc: &Doc) -> (controls: Table<Doc>)
    ensures
        controls.members() == controls_of(doc@),
{
    broadcast use json::lemma_members;

    let mut controls: Table<Doc> = Table::new();
    assert(controls.members() =~= Seq::<(Seq<char>, Json)>::empty());
    match doc.get("catalog") {
        Some(catalog) => {
            collect(catalog, &mut controls);
        },
        None => {},
    }
    controls
}

// Control ids.

/// An id in OSCAL form: lower case, no leading zeros, the enhancement behind a
/// dot.
pub open spec fn normal_id(id: Seq<char>) -> Seq<char> {
    let lower = text::ascii_lower(id);
    let parts = text::split(lower, '-');
    if parts.len() < 2 {
        lower
    } else {
        let base = parts[0] + "-"@ + text::trim_start(parts[1], '0');
        if parts.len() < 3 {
            base
        } else {
            base + "."@ + text::trim_start(parts[2], '0')
        }
    }
}

/// FedRAMP writes control ids two ways: `CTL` uses `AC-06-01`, KSI references
/// use OSCAL's own `ac-6.1`. Both normalise to the OSCAL form so the catalog
/// can be joined.
pub fn normalise_id(id: &str) -> (normal: String)
    ensures
        normal@ == normal_id(id@),
{
    let lower = text::to_ascii_lower(id);
    let parts = text::split_text(lower.as_str(), '-');
    assert(parts@.len() == text::texts(parts@).len());
    if parts.len() < 2 {
        return lower;
    }
    assert(text::texts(parts@)[0] == parts@[0]@);
    assert(text::texts(parts@)[1] == parts@[1]@);
    let mut normal = parts[0].clone();
    normal.push_str("-");
    normal.push_str(text::trim_leading(parts[1].as_str(), '0').as_str());
    if parts.len() >= 3 {
        assert(text::texts(parts@)[2] == parts@[2]@);
        normal.push_str(".");
        normal.push_str(text::trim_leading(parts[2].as_str(), '0').as_str());
    }
    normal
}

pub open spec fn normal_ids(ids: Seq<Seq<char>>) -> Seq<Seq<char>> {
    ids.map_values(|id: Seq<char>| normal_id(id))
}

/// The controls that `CTL` tailors.
pub open spec fn tailored(families: Seq<(Seq<char>, Json)>) -> Seq<Seq<char>>
    decreases families.len(),
{
    if families.len() == 0 {
        Seq::empty()
    } else {
        tailored(families.drop_last()) + normal_ids(
            table::keys(json::members_of(Some(families.last().1))),
        )
    }
}

/// The texts among some values, in OSCAL form.
pub open spec fn cited(controls: Seq<Json>) -> Seq<Seq<char>>
    decreases controls.len(),
{
    if controls.len() == 0 {
        Seq::empty()
    } else {
        match controls.last() {
            Json::Text(id) => cited(controls.drop_last()).push(normal_id(id)),
            _ => cited(controls.drop_last()),
        }
    }
}

/// The controls that a family's indicators cite.
pub open spec fn indicated(indicators: Seq<(Seq<char>, Json)>) -> Seq<Seq<char>>
    decreases indicators.len(),
{
    if indicators.len() == 0 {
        Seq::empty()
    } else {
        indicated(indicators.drop_last()) + cited(
            json::items_of(indicators.last().1, "controls"@),
        )
    }
}

/// The controls that the `KSI` families cite.
pub open spec fn indicated_all(families: Seq<(Seq<char>, Json)>) -> Seq<Seq<char>>
    decreases families.len(),
{
    if families.len() == 0 {
        Seq::empty()
    } else {
        indicated_all(families.drop_last()) + indicated(
            json::members_of(families.last().1.get("indicators"@)),
        )
    }
}

/// Every 800-53 control the ruleset points at, in OSCAL form, each once.
pub open spec fn references(rules: Json) -> Seq<(Seq<char>, ())> {
    diff::name_set(
        tailored(json::members_of(rules.get("CTL"@))) + indicated_all(
            json::members_of(rules.get("KSI"@)),
        ),
    )
}

fn add_normal_keys(table: &Table<Doc>, ids: &mut Vec<String>)
    ensures
        text::texts(final(ids)@) == text::texts(old(ids)@) + normal_ids(
            table::keys(table.members()),
        ),
{
    broadcast use json::lemma_members;

    let ghost start = text::texts(ids@);
    let ghost all = normal_ids(table::keys(table.members()));
    let mut i: usize = 0;
    assert(start + all.take(0) =~= start);
    while i < table.len()
        invariant
            i <= table@.len(),
            table.members() == json::deep(table@),
            all == normal_ids(table::keys(table.members())),
            text::texts(ids@) == start + all.take(i as int),
        decreases table@.len() - i,
    {
        let id = normalise_id(table.key(i));
        proof {
            text::lemma_texts_push(ids@, id);
            assert(all[i as int] == id@);
            assert(start + all.take(i + 1) =~= (start + all.take(i as int)).push(id@));
        }
        ids.push(id);
        i += 1;
    }
    assert(all.take(all.len() as int) =~= all);
}

fn add_tailored(families: &Table<Doc>, ids: &mut Vec<String>)
    ensures
        text::texts(final(ids)@) == text::texts(old(ids)@) + tailored(families.members()),
{
    broadcast use json::lemma_members;

    let ghost start = text::texts(ids@);
    let ghost all = families.members();
    let mut i: usize = 0;
    assert(start + tailored(all.take(0)) =~= start);
    while i < families.len()
        invariant
            i <= families@.len(),
            all == families.members(),
            all == json::deep(families@),
            text::texts(ids@) == start + tailored(all.take(i as int)),
        decreases families@.len() - i,
    {
        let ghost done = tailored(all.take(i as int));
        let ghost more = normal_ids(table::keys(json::members_of(Some(all[i as int].1))));
        proof {
            assert(all.take(i + 1).drop_last() =~= all.take(i as int));
            assert(all.take(i + 1).last() == all[i as int]);
            assert(start + (done + more) =~= start + done + more);
            assert(more.len() == 0 ==> start + done + more =~= start + done);
        }
        match json::members_in(Some(families.value(i))) {
            Some(controls) => {
                add_normal_keys(controls, ids);
            },
            None => {},
        }
        i += 1;
    }
    assert(all.take(all.len() as int) =~= all);
}

fn add_cited(controls: &Vec<Doc>, ids: &mut Vec<String>)
    ensures
        text::texts(final(ids)@) == text::texts(old(ids)@) + cited(json::jsons(controls@)),
{
    let ghost start = text::texts(ids@);
    let ghost all = json::jsons(controls@);
    let mut i: usize = 0;
    assert(start + cited(all.take(0)) =~= start);
    while i < controls.len()
        invariant
            i <= controls@.len(),
            all == json::jsons(controls@),
            text::texts(ids@) == start + cited(all.take(i as int)),
        decreases controls@.len() - i,
    {
        let ghost done = cited(all.take(i as int));
        proof {
            assert(all.take(i + 1).drop_last() =~= all.take(i as int));
            assert(all.take(i + 1).last() == controls@[i as int]@);
        }
        match controls[i].as_str() {
            Some(id) => {
                let id = normalise_id(id);
                proof {
                    text::lemma_texts_push(ids@, id);
                    assert(start + done.push(id@) =~= (start + done).push(id@));
                }
                ids.push(id);
            },
            None => {},
        }
        i += 1;
    }
    assert(all.take(all.len() as int) =~= all);
}

fn add_indicated(indicators: &Table<Doc>, ids: &mut Vec<String>)
    ensures
        text::texts(final(ids)@) == text::texts(old(ids)@) + indicated(indicators.members()),
{
    broadcast use json::lemma_members;

    let ghost start = text::texts(ids@);
    let ghost all = indicators.members();
    let mut i: usize = 0;
    assert(start + indicated(all.take(0)) =~= start);
    while i < indicators.len()
        invariant
            i <= indicators@.len(),
            all == indicators.members(),
            all == json::deep(indicators@),
            text::texts(ids@) == start + indicated(all.take(i as int)),
        decreases indicators@.len() - i,
    {
        let ghost done = indicated(all.take(i as int));
        let ghost more = cited(json::items_of(all[i as int].1, "controls"@));
        proof {
            assert(all.take(i + 1).drop_last() =~= all.take(i as int));
            assert(all.take(i + 1).last() == all[i as int]);
            assert(start + (done + more) =~= start + done + more);
            assert(more.len() == 0 ==> start + done + more =~= start + done);
        }
        match json::array_member(indicators.value(i), "controls") {
            Some(controls) => {
                add_cited(controls, ids);
            },
            None => {},
        }
        i += 1;
    }
    assert(all.take(all.len() as int) =~= all);
}

fn add_all_indicated(families: &Table<Doc>, ids: &mut Vec<String>)
    ensures
        text::texts(final(ids)@) == text::texts(old(ids)@) + indicated_all(families.members()),
{
    broadcast use json::lemma_members;

    let ghost start = text::texts(ids@);
    let ghost all = families.members();
    let mut i: usize = 0;
    assert(start + indicated_all(all.take(0)) =~= start);
    while i < families.len()
        invariant
            i <= families@.len(),
            all == families.members(),
            all == json::deep(families@),
            text::texts(ids@) == start + indicated_all(all.take(i as int)),
        decreases families@.len() - i,
    {
        let ghost done = indicated_all(all.take(i as int));
        let ghost more = indicated(json::members_of(all[i as int].1.get("indicators"@)));
        proof {
            assert(all.take(i + 1).drop_last() =~= all.take(i as int));
            assert(all.take(i + 1).last() == all[i as int]);
            assert(start + (done + more) =~= start + done + more);
            assert(more.len() == 0 ==> start + done + more =~= start + done);
        }
        match json::members_in(families.value(i).get("indicators")) {
            Some(indicators) => {
                add_indicated(indicators, ids);
            },
            None => {},
        }
        i += 1;
    }
    assert(all.take(all.len() as int) =~= all);
}

/// Every 800-53 control the ruleset points at, in OSCAL form.
pub fn referenced_controls(rules: &Doc) -> (ids: Table<()>)
    ensures
        ids@ == references(rules@),
{
    let mut ids: Vec<String> = Vec::new();
    assert(text::texts(ids@) =~= Seq::<Seq<char>>::empty());
    match json::members_in(rules.get("CTL")) {
        Some(families) => {
            add_tailored(families, &mut ids);
        },
        None => {},
    }
    assert(text::texts(ids@) =~= tailored(json::members_of(rules@.get("CTL"@))));
    match json::members_in(rules.get("KSI")) {
        Some(families) => {
            add_all_indicated(families, &mut ids);
        },
        None => {},
    }
    assert(text::texts(ids@) =~= tailored(json::members_of(rules@.get("CTL"@))) + indicated_all(
        json::members_of(rules@.get("KSI"@)),
    ));
    diff::name_table(&ids)
}

// The diff.

/// Fields whose movement changes what an implementer must do.
pub open spec fn highlight_fields() -> Seq<Seq<char>> {
    seq!["title"@, "class"@]
}

pub open spec fn version_of(doc: Json) -> Seq<char> {
    match json::at(doc, seq!["catalog"@, "metadata"@, "version"@]) {
        Some(Json::Text(version)) => version,
        _ => ""@,
    }
}

/// A catalog revision is a real event even if no control text moved.
pub open spec fn revision_notices(before: Json, after: Json) -> Seq<Notice> {
    if version_of(before) != version_of(after) && version_of(before) != ""@ {
        seq![
            Notice {
                kind: "catalog"@,
                id: "800-53 revision"@,
                field: "version"@,
                from: version_of(before),
                to: version_of(after),
            },
        ]
    } else {
        Seq::empty()
    }
}

pub open spec fn edit_ids(entries: Seq<Edit>) -> Seq<Seq<char>> {
    entries.map_values(|e: Edit| e.id)
}

/// The names that FedRAMP references.
pub open spec fn relevant(
    names: Seq<Seq<char>>,
    referenced: Seq<(Seq<char>, ())>,
) -> Seq<Seq<char>>
    decreases names.len(),
{
    if names.len() == 0 {
        Seq::empty()
    } else {
        let rest = relevant(names.drop_last(), referenced);
        if table::lookup(referenced, names.last()) is Some {
            rest.push(names.last())
        } else {
            rest
        }
    }
}

pub open spec fn reference_notices(ids: Seq<Seq<char>>) -> Seq<Notice> {
    ids.map_values(
        |id: Seq<char>|
            Notice {
                kind: "referenced"@,
                id,
                field: "control"@,
                from: "FedRAMP references this control"@,
                to: "changed upstream"@,
            },
    )
}

/// What moved between two catalogs, for a ruleset that references the given
/// controls.
pub open spec fn movement(
    before: Json,
    after: Json,
    referenced: Seq<(Seq<char>, ())>,
) -> Movement {
    let found = diff::compared(
        diff::still(sources::OSCAL@),
        controls_of(before),
        controls_of(after),
        highlight_fields(),
        "control"@,
    );
    let touched = relevant(
        diff::sorted_names(found.added + found.removed + edit_ids(found.modified)),
        referenced,
    );
    let counted = Movement {
        highlights: found.highlights + revision_notices(before, after) + reference_notices(touched),
        counts: table::put(
            found.counts,
            "controls_referenced_by_fedramp"@,
            touched.len() as usize,
        ),
        ..found
    };
    let changed = !counted.quiet() || counted.highlights.len() > 0;
    Movement {
        changed,
        severity: if touched.len() > 0 {
            Severity::Major
        } else if changed {
            Severity::Routine
        } else {
            Severity::Unchanged
        },
        ..counted
    }
}

fn version<'a>(doc: &'a Doc) -> (version: &'a str)
    ensures
        version@ == version_of(doc@),
{
    let path = ["catalog", "metadata", "version"];
    assert(json::strs(path@) =~= seq!["catalog"@, "metadata"@, "version"@]);
    match json::value_at(doc, &path) {
        Some(Doc::Text(version)) => version.as_str(),
        _ => "",
    }
}

fn note_revision(before: &Doc, after: &Doc, highlights: &mut Vec<Highlight>)
    ensures
        diff::notices(final(highlights)@) == diff::notices(old(highlights)@) + revision_notices(
            before@,
            after@,
        ),
{
    let old_version = version(before);
    let new_version = version(after);
    if !text::same_text(old_version, new_version) && !text::same_text(old_version, "") {
        let highlight = Highlight {
            kind: "catalog".to_owned(),
            id: "800-53 revision".to_owned(),
            field: "version".to_owned(),
            from: old_version.to_owned(),
            to: new_version.to_owned(),
        };
        assert(diff::notices(highlights@.push(highlight)) =~= diff::notices(highlights@)
            + seq![highlight@]);
        highlights.push(highlight);
    }
    assert(diff::notices(highlights@) =~= diff::notices(old(highlights)@) + revision_notices(
        before@,
        after@,
    ));
}

/// The ids of everything that was added, removed or modified.
fn touched_ids(delta: &Delta) -> (names: Table<()>)
    ensures
        table::keys(names@) == diff::sorted_names(
            delta@.added + delta@.removed + edit_ids(delta@.modified),
        ),
{
    let mut ids: Vec<String> = Vec::new();
    assert(text::texts(ids@) =~= Seq::<Seq<char>>::empty());
    diff::add_texts(&delta.added, &mut ids);
    diff::add_texts(&delta.removed, &mut ids);
    let ghost start = text::texts(ids@);
    let ghost all = edit_ids(diff::edits(delta.modified@));
    let mut i: usize = 0;
    assert(start + all.take(0) =~= start);
    while i < delta.modified.len()
        invariant
            i <= delta.modified@.len(),
            all == edit_ids(diff::edits(delta.modified@)),
            text::texts(ids@) == start + all.take(i as int),
        decreases delta.modified@.len() - i,
    {
        let id = delta.modified[i].id.clone();
        proof {
            text::lemma_texts_push(ids@, id);
            assert(all[i as int] == id@);
            assert(start + all.take(i + 1) =~= (start + all.take(i as int)).push(id@));
        }
        ids.push(id);
        i += 1;
    }
    assert(all.take(all.len() as int) =~= all);
    assert(text::texts(ids@) =~= delta@.added + delta@.removed + edit_ids(delta@.modified));
    diff::name_table(&ids)
}

fn only_referenced(names: &Table<()>, referenced: &Table<()>) -> (ids: Vec<String>)
    ensures
        text::texts(ids@) == relevant(table::keys(names@), referenced@),
{
    let mut ids: Vec<String> = Vec::new();
    let ghost all = table::keys(names@);
    let mut i: usize = 0;
    assert(text::texts(ids@) =~= relevant(all.take(0), referenced@));
    while i < names.len()
        invariant
            i <= names@.len(),
            all == table::keys(names@),
            text::texts(ids@) == relevant(all.take(i as int), referenced@),
        decreases names@.len() - i,
    {
        let id = names.key(i);
        proof {
            assert(all.take(i + 1).drop_last() =~= all.take(i as int));
            assert(all.take(i + 1).last() == id@);
        }
        if referenced.contains_key(id) {
            let id = id.to_owned();
            proof {
                text::lemma_texts_push(ids@, id);
            }
            ids.push(id);
        }
        i += 1;
    }
    assert(all.take(all.len() as int) =~= all);
    ids
}

fn note_references(ids: &Vec<String>, highlights: &mut Vec<Highlight>)
    ensures
        diff::notices(final(highlights)@) == diff::notices(old(highlights)@) + reference_notices(
            text::texts(ids@),
        ),
{
    let ghost start = diff::notices(highlights@);
    let ghost all = reference_notices(text::texts(ids@));
    let mut i: usize = 0;
    assert(start + all.take(0) =~= start);
    while i < ids.len()
        invariant
            i <= ids@.len(),
            all == reference_notices(text::texts(ids@)),
            diff::notices(highlights@) == start + all.take(i as int),
        decreases ids@.len() - i,
    {
        let highlight = Highlight {
            kind: "referenced".to_owned(),
            id: ids[i].clone(),
            field: "control".to_owned(),
            from: "FedRAMP references this control".to_owned(),
            to: "changed upstream".to_owned(),
        };
        proof {
            assert(all[i as int] == highlight@);
            assert(diff::notices(highlights@.push(highlight)) =~= diff::notices(highlights@).push(
                highlight@,
            ));
            assert(start + all.take(i + 1) =~= (start + all.take(i as int)).push(highlight@));
        }
        highlights.push(highlight);
        i += 1;
    }
    assert(all.take(all.len() as int) =~= all);
}

pub fn diff(before: &Doc, after: &Doc, referenced: &Table<()>) -> (delta: Delta)
    ensures
        delta@ == movement(before@, after@, referenced@),
{
    let mut delta = Delta::new(sources::OSCAL);
    let old_controls = flatten(before);
    let new_controls = flatten(after);
    let fields = ["title", "class"];
    assert(json::strs(fields@) =~= highlight_fields());
    diff::compare_maps(&old_controls, &new_controls, &mut delta, &fields, "control");
    let names = touched_ids(&delta);
    let touched = only_referenced(&names, referenced);
    assert(touched@.len() == text::texts(touched@).len());
    note_revision(before, after, &mut delta.highlights);
    note_references(&touched, &mut delta.highlights);
    delta.counts.insert("controls_referenced_by_fedramp".to_owned(), touched.len());
    assert(delta@.highlights.len() == delta.highlights@.len());
    delta.changed = !delta.is_empty() || delta.highlights.len() > 0;
    delta.severity = if touched.len() > 0 {
        Severity::Major
    } else if delta.changed {
        Severity::Routine
    } else {
        Severity::Unchanged
    };
    delta
}

// Laws.

proof fn lemma_catalogued_ordered(node: Json, out: Seq<(Seq<char>, Json)>)
    requires
        table::ordered(out),
    ensures
        table::ordered(catalogued(node, out)),
    decreases
            node,
            json::items_of(node, "groups"@).len() + json::items_of(node, "controls"@).len() + 1,
{
    let groups = json::items_of(node, "groups"@).len();
    lemma_groups_ordered(node, groups, out);
    lemma_controls_ordered(
        node,
        json::items_of(node, "controls"@).len(),
        groups_in(node, groups, out),
    );
}

proof fn lemma_groups_ordered(node: Json, n: nat, out: Seq<(Seq<char>, Json)>)
    requires
        table::ordered(out),
    ensures
        table::ordered(groups_in(node, n, out)),
    decreases node, n,
{
    let items = json::items_of(node, "groups"@);
    if 0 < n <= items.len() {
        json::lemma_item_smaller(node, "groups"@, n - 1);
        lemma_groups_ordered(node, (n - 1) as nat, out);
        lemma_catalogued_ordered(items[n - 1], groups_in(node, (n - 1) as nat, out));
    }
}

proof fn lemma_controls_ordered(node: Json, n: nat, out: Seq<(Seq<char>, Json)>)
    requires
        table::ordered(out),
    ensures
        table::ordered(controls_in(node, n, out)),
    decreases node, n,
{
    let items = json::items_of(node, "controls"@);
    if 0 < n <= items.len() {
        json::lemma_item_smaller(node, "controls"@, n - 1);
        lemma_controls_ordered(node, (n - 1) as nat, out);
        let before = controls_in(node, (n - 1) as nat, out);
        let control = items[n - 1];
        match control.text_at("id"@) {
            Some(id) => {
                table::lemma_put_ordered(before, id, control);
                lemma_catalogued_ordered(control, table::put(before, id, control));
            },
            None => {
                lemma_catalogued_ordered(control, before);
            },
        }
    }
}

/// Controls come in the order of their ids, each id once.
pub proof fn law_controls_are_ordered(doc: Json)
    ensures
        table::ordered(controls_of(doc)),
{
    match doc.get("catalog"@) {
        Some(catalog) => {
            lemma_catalogued_ordered(catalog, Seq::empty());
        },
        None => {},
    }
}

/// A republish with the same controls and the same revision is not a change,
/// whatever the ruleset references.
pub proof fn law_same_catalog_is_unchanged(
    before: Json,
    after: Json,
    referenced: Seq<(Seq<char>, ())>,
)
    requires
        controls_of(before) == controls_of(after),
        version_of(before) == version_of(after),
    ensures
        !movement(before, after, referenced).changed,
        movement(before, after, referenced).severity == Severity::Unchanged,
{
    let start = diff::still(sources::OSCAL@);
    law_controls_are_ordered(before);
    diff::law_same_maps_compare_equal(start, controls_of(before), highlight_fields(), "control"@);
    let touched = start.added + start.removed + edit_ids(start.modified);
    assert(touched.len() == 0);
    assert(diff::sorted_names(touched).len() == 0);
    assert(start.highlights + revision_notices(before, after) + reference_notices(
        Seq::empty(),
    ) =~= Seq::<Notice>::empty());
    reveal_with_fuel(table::put, 2);
}

/// A touched control that the ruleset references makes the change major; a
/// change that touches none of them is routine.
pub proof fn law_severity_is_relative_to_the_ruleset(
    before: Json,
    after: Json,
    referenced: Seq<(Seq<char>, ())>,
)
    ensures
        ({
            let found = diff::compared(
                diff::still(sources::OSCAL@),
                controls_of(before),
                controls_of(after),
                highlight_fields(),
                "control"@,
            );
            let touched = relevant(
                diff::sorted_names(found.added + found.removed + edit_ids(found.modified)),
                referenced,
            );
            let severity = movement(before, after, referenced).severity;
            &&& severity == Severity::Major <==> touched.len() > 0
            &&& severity == Severity::Routine <==> touched.len() == 0 && movement(
                before,
                after,
                referenced,
            ).changed
        }),
{
}

/// Normalising twice changes nothing: both of FedRAMP's forms of an id meet in
/// OSCAL's.
pub proof fn law_normal_ids_are_fixed(id: Seq<char>)
    ensures
        normal_id(normal_id(id)) == normal_id(id),
{
    let lower = text::ascii_lower(id);
    let parts = text::split(lower, '-');
    text::lemma_lower_settled(id);
    text::lemma_lower_settled(lower);
    text::lemma_split_pieces(lower, '-');
    if parts.len() >= 2 {
        reveal_strlit("-");
        reveal_strlit(".");
        let family = parts[0];
        let number = text::trim_start(parts[1], '0');
        text::lemma_trimmed(parts[1], '0');
        let tail = if parts.len() < 3 {
            number
        } else {
            number + "."@ + text::trim_start(parts[2], '0')
        };
        if parts.len() >= 3 {
            text::lemma_trimmed(parts[2], '0');
        }
        let normal = normal_id(id);
        assert(normal =~= family.push('-') + tail);
        assert(!family.contains('-'));
        assert(!parts[1].contains('-'));
        assert(!tail.contains('-')) by {
            if tail.contains('-') {
                let k = choose|k: int| 0 <= k < tail.len() && tail[k] == '-';
                if k < number.len() {
                    assert(number[k] == '-');
                    assert(number.contains('-'));
                } else if k > number.len() {
                    let enhancement = text::trim_start(parts[2], '0');
                    assert(enhancement[k - number.len() - 1] == '-');
                    assert(enhancement.contains('-'));
                    assert(parts[2].contains('-'));
                }
            }
        }
        text::lemma_split_two(family, tail, '-');
        assert(text::settled(normal)) by {
            assert(text::settled(family));
            assert(text::settled(number));
            if parts.len() >= 3 {
                assert(text::settled(text::trim_start(parts[2], '0')));
            }
            assert forall|i: int| 0 <= i < normal.len() implies text::lower_char(
                #[trigger] normal[i],
            ) == normal[i] by {
                let f = family.len() as int;
                let n = number.len() as int;
                if i < f {
                    assert(normal[i] == family[i]);
                } else if i == f {
                    assert(normal[i] == '-');
                } else if i - f - 1 < n {
                    assert(normal[i] == number[i - f - 1]);
                } else if i - f - 1 == n {
                    assert(normal[i] == '.');
                } else {
                    assert(normal[i] == text::trim_start(parts[2], '0')[i - f - n - 2]);
                }
            }
        }
        text::lemma_lower_settled(normal);
        assert(tail.len() == 0 || tail[0] != '0') by {
            if tail.len() > 0 && number.len() == 0 {
                assert(tail[0] == '.');
            } else if tail.len() > 0 {
                assert(tail[0] == number[0]);
            }
        }
        assert(text::trim_start(tail, '0') == tail);
        assert(family + "-"@ + tail =~= normal);
    }
}

// What is taken from a catalog, and what the rules refer to.

/// A control stands somewhere in a node, at most `depth` groups and controls
/// down.
pub open spec fn nests(node: Json, control: Json, depth: nat) -> bool
    decreases depth,
{
    depth > 0 && {
        ||| exists|i: int|
            0 <= i < json::items_of(node, "controls"@).len() && (#[trigger] json::items_of(
                node,
                "controls"@,
            )[i] == control || nests(
                json::items_of(node, "controls"@)[i],
                control,
                (depth - 1) as nat,
            ))
        ||| exists|i: int|
            0 <= i < json::items_of(node, "groups"@).len() && nests(
                #[trigger] json::items_of(node, "groups"@)[i],
                control,
                (depth - 1) as nat,
            )
    }
}

proof fn lemma_catalogued_grows(node: Json, out: Seq<(Seq<char>, Json)>, id: Seq<char>)
    requires
        table::ordered(out),
    ensures
        table::lookup(out, id) is Some ==> table::lookup(catalogued(node, out), id) is Some,
    decreases
            node,
            json::items_of(node, "groups"@).len() + json::items_of(node, "controls"@).len() + 1,
{
    let groups = json::items_of(node, "groups"@).len();
    lemma_groups_grow(node, groups, out, id);
    lemma_groups_ordered(node, groups, out);
    lemma_controls_grow(
        node,
        json::items_of(node, "controls"@).len(),
        groups_in(node, groups, out),
        id,
    );
}

proof fn lemma_groups_grow(node: Json, n: nat, out: Seq<(Seq<char>, Json)>, id: Seq<char>)
    requires
        table::ordered(out),
    ensures
        table::lookup(out, id) is Some ==> table::lookup(groups_in(node, n, out), id) is Some,
    decreases node, n,
{
    let items = json::items_of(node, "groups"@);
    if 0 < n <= items.len() {
        json::lemma_item_smaller(node, "groups"@, n - 1);
        lemma_groups_grow(node, (n - 1) as nat, out, id);
        lemma_groups_ordered(node, (n - 1) as nat, out);
        lemma_catalogued_grows(items[n - 1], groups_in(node, (n - 1) as nat, out), id);
    }
}

proof fn lemma_controls_grow(node: Json, n: nat, out: Seq<(Seq<char>, Json)>, id: Seq<char>)
    requires
        table::ordered(out),
    ensures
        table::lookup(out, id) is Some ==> table::lookup(controls_in(node, n, out), id) is Some,
    decreases node, n,
{
    let items = json::items_of(node, "controls"@);
    if 0 < n <= items.len() {
        json::lemma_item_smaller(node, "controls"@, n - 1);
        lemma_controls_grow(node, (n - 1) as nat, out, id);
        lemma_controls_ordered(node, (n - 1) as nat, out);
        let before = controls_in(node, (n - 1) as nat, out);
        let control = items[n - 1];
        let held = match control.text_at("id"@) {
            Some(own) => table::put(before, own, control),
            None => before,
        };
        if let Some(own) = control.text_at("id"@) {
            table::lemma_put_ordered(before, own, control);
            table::lemma_put_lookup(before, own, control, id);
        }
        lemma_catalogued_grows(control, held, id);
    }
}

proof fn lemma_group_kept(node: Json, n: nat, k: int, out: Seq<(Seq<char>, Json)>, id: Seq<char>)
    requires
        table::ordered(out),
        0 <= k < n <= json::items_of(node, "groups"@).len(),
    ensures
        table::lookup(
            catalogued(
                json::items_of(node, "groups"@)[k],
                groups_in(node, k as nat, out),
            ),
            id,
        ) is Some ==> table::lookup(groups_in(node, n, out), id) is Some,
    decreases n,
{
    let items = json::items_of(node, "groups"@);
    if k < n - 1 {
        lemma_group_kept(node, (n - 1) as nat, k, out, id);
        lemma_groups_ordered(node, (n - 1) as nat, out);
        lemma_catalogued_grows(items[n - 1], groups_in(node, (n - 1) as nat, out), id);
    }
}

spec fn entered(control: Json, before: Seq<(Seq<char>, Json)>) -> Seq<(Seq<char>, Json)> {
    match control.text_at("id"@) {
        Some(own) => table::put(before, own, control),
        None => before,
    }
}

proof fn lemma_entered_ordered(control: Json, before: Seq<(Seq<char>, Json)>)
    requires
        table::ordered(before),
    ensures
        table::ordered(entered(control, before)),
{
    if let Some(own) = control.text_at("id"@) {
        table::lemma_put_ordered(before, own, control);
    }
}

proof fn lemma_control_kept(node: Json, n: nat, k: int, out: Seq<(Seq<char>, Json)>, id: Seq<char>)
    requires
        table::ordered(out),
        0 <= k < n <= json::items_of(node, "controls"@).len(),
    ensures
        table::lookup(
            catalogued(
                json::items_of(node, "controls"@)[k],
                entered(
                    json::items_of(node, "controls"@)[k],
                    controls_in(node, k as nat, out),
                ),
            ),
            id,
        ) is Some ==> table::lookup(controls_in(node, n, out), id) is Some,
    decreases n,
{
    let items = json::items_of(node, "controls"@);
    if k < n - 1 {
        lemma_control_kept(node, (n - 1) as nat, k, out, id);
        lemma_controls_ordered(node, (n - 1) as nat, out);
        let before = controls_in(node, (n - 1) as nat, out);
        lemma_entered_ordered(items[n - 1], before);
        if let Some(own) = items[n - 1].text_at("id"@) {
            table::lemma_put_lookup(before, own, items[n - 1], id);
        }
        lemma_catalogued_grows(items[n - 1], entered(items[n - 1], before), id);
    }
}

proof fn lemma_nested_found(
    node: Json,
    control: Json,
    depth: nat,
    out: Seq<(Seq<char>, Json)>,
    id: Seq<char>,
)
    requires
        table::ordered(out),
        nests(node, control, depth),
        control.text_at("id"@) == Some(id),
    ensures
        table::lookup(catalogued(node, out), id) is Some,
    decreases depth,
{
    let groups = json::items_of(node, "groups"@);
    let controls = json::items_of(node, "controls"@);
    lemma_groups_ordered(node, groups.len(), out);
    let held = groups_in(node, groups.len(), out);
    let less = (depth - 1) as nat;
    if exists|i: int|
        0 <= i < controls.len() && (#[trigger] controls[i] == control || nests(
            controls[i],
            control,
            less,
        )) {
        let i = choose|i: int|
            0 <= i < controls.len() && (#[trigger] controls[i] == control || nests(
                controls[i],
                control,
                less,
            ));
        lemma_controls_ordered(node, i as nat, held);
        let before = controls_in(node, i as nat, held);
        lemma_entered_ordered(controls[i], before);
        if controls[i] == control {
            table::lemma_put_lookup(before, id, control, id);
            lemma_catalogued_grows(control, entered(control, before), id);
        } else {
            lemma_nested_found(controls[i], control, less, entered(controls[i], before), id);
        }
        lemma_control_kept(node, controls.len(), i, held, id);
    } else {
        let i = choose|i: int|
            0 <= i < groups.len() && nests(#[trigger] groups[i], control, less);
        lemma_groups_ordered(node, i as nat, out);
        lemma_nested_found(groups[i], control, less, groups_in(node, i as nat, out), id);
        lemma_group_kept(node, groups.len(), i, out, id);
        lemma_controls_grow(node, controls.len(), held, id);
    }
}

spec fn own_ids(out: Seq<(Seq<char>, Json)>) -> bool {
    forall|i: int| 0 <= i < out.len() ==> (#[trigger] out[i]).1.text_at("id"@) == Some(out[i].0)
}

proof fn lemma_put_own(out: Seq<(Seq<char>, Json)>, id: Seq<char>, control: Json)
    requires
        own_ids(out),
        control.text_at("id"@) == Some(id),
    ensures
        own_ids(table::put(out, id, control)),
{
    let all = table::put(out, id, control);
    table::lemma_put_entries(out, id, control);
    assert forall|i: int| 0 <= i < all.len() implies (#[trigger] all[i]).1.text_at("id"@) == Some(
        all[i].0,
    ) by {
        if all[i] != (id, control) {
            let k = choose|k: int| 0 <= k < out.len() && #[trigger] out[k] == all[i];
        }
    }
}

proof fn lemma_catalogued_own(node: Json, out: Seq<(Seq<char>, Json)>)
    requires
        own_ids(out),
    ensures
        own_ids(catalogued(node, out)),
    decreases
            node,
            json::items_of(node, "groups"@).len() + json::items_of(node, "controls"@).len() + 1,
{
    let groups = json::items_of(node, "groups"@).len();
    lemma_groups_own(node, groups, out);
    lemma_controls_own(
        node,
        json::items_of(node, "controls"@).len(),
        groups_in(node, groups, out),
    );
}

proof fn lemma_groups_own(node: Json, n: nat, out: Seq<(Seq<char>, Json)>)
    requires
        own_ids(out),
    ensures
        own_ids(groups_in(node, n, out)),
    decreases node, n,
{
    let items = json::items_of(node, "groups"@);
    if 0 < n <= items.len() {
        json::lemma_item_smaller(node, "groups"@, n - 1);
        lemma_groups_own(node, (n - 1) as nat, out);
        lemma_catalogued_own(items[n - 1], groups_in(node, (n - 1) as nat, out));
    }
}

proof fn lemma_controls_own(node: Json, n: nat, out: Seq<(Seq<char>, Json)>)
    requires
        own_ids(out),
    ensures
        own_ids(controls_in(node, n, out)),
    decreases node, n,
{
    let items = json::items_of(node, "controls"@);
    if 0 < n <= items.len() {
        json::lemma_item_smaller(node, "controls"@, n - 1);
        lemma_controls_own(node, (n - 1) as nat, out);
        let before = controls_in(node, (n - 1) as nat, out);
        let control = items[n - 1];
        if let Some(own) = control.text_at("id"@) {
            lemma_put_own(before, own, control);
            lemma_catalogued_own(control, table::put(before, own, control));
        } else {
            lemma_catalogued_own(control, before);
        }
    }
}

/// Every control with an id is found in the catalog, however deep in groups and
/// controls it stands, and what is found under an id has that id.
pub proof fn law_controls_are_found_at_any_depth(
    doc: Json,
    catalog: Json,
    control: Json,
    depth: nat,
    id: Seq<char>,
)
    requires
        doc.get("catalog"@) == Some(catalog),
    ensures
        nests(catalog, control, depth) && control.get("id"@) == Some(Json::Text(id))
            ==> table::lookup(controls_of(doc), id) is Some,
        table::lookup(controls_of(doc), id) matches Some(found) ==> found.get("id"@) == Some(
            Json::Text(id),
        ),
{
    let none = Seq::<(Seq<char>, Json)>::empty();
    if nests(catalog, control, depth) && control.get("id"@) == Some(Json::Text(id)) {
        lemma_nested_found(catalog, control, depth, none, id);
    }
    lemma_catalogued_own(catalog, none);
    if table::lookup(controls_of(doc), id) is Some {
        let i = table::lemma_lookup_index(controls_of(doc), id);
        assert(controls_of(doc)[i].1.text_at("id"@) == Some(controls_of(doc)[i].0));
    }
}

/// The normal form of an id is in lower case, with its numbers stripped of leading
/// zeros and an enhancement behind a dot.
pub proof fn law_normal_form_of_an_id(family: Seq<char>, number: Seq<char>, enhancement: Seq<char>)
    requires
        !family.contains('-'),
        !number.contains('-'),
        !enhancement.contains('-'),
    ensures
        normal_id(family + seq!['-'] + number) == text::ascii_lower(family) + "-"@
            + text::trim_start(text::ascii_lower(number), '0'),
        normal_id(family + seq!['-'] + number + seq!['-'] + enhancement) == text::ascii_lower(family)
            + "-"@ + text::trim_start(text::ascii_lower(number), '0') + "."@ + text::trim_start(
            text::ascii_lower(enhancement),
            '0',
        ),
{
    let f = text::ascii_lower(family);
    let n = text::ascii_lower(number);
    let e = text::ascii_lower(enhancement);
    lemma_no_dash(family);
    lemma_no_dash(number);
    lemma_no_dash(enhancement);
    let two = family + seq!['-'] + number;
    let three = two + seq!['-'] + enhancement;
    assert(text::ascii_lower(two) =~= f.push('-') + n);
    assert(text::ascii_lower(three) =~= (f.push('-') + n).push('-') + e);
    text::lemma_split_two(f, n, '-');
    text::lemma_split_more(f.push('-') + n, e, '-');
    let parts = text::split(text::ascii_lower(three), '-');
    assert(parts =~= seq![f, n, e]);
}

proof fn lemma_no_dash(s: Seq<char>)
    requires
        !s.contains('-'),
    ensures
        !text::ascii_lower(s).contains('-'),
{
    let l = text::ascii_lower(s);
    if l.contains('-') {
        let k = choose|k: int| 0 <= k < l.len() && l[k] == '-';
        text::law_case_folds_letters_alone(s, s);
        assert(l[k] as int == 45);
        assert(s[k] == '-');
    }
}

proof fn lemma_named(names: Seq<Seq<char>>, id: Seq<char>)
    ensures
        table::lookup(diff::name_set(names), id) is Some <==> names.contains(id),
{
    diff::law_sorted_names_are_the_names(names);
    let set = diff::name_set(names);
    let sorted = diff::sorted_names(names);
    let i = table::lemma_lookup_index(set, id);
    if table::lookup(set, id) is Some {
        assert(sorted[i] == id);
        assert(sorted.contains(id));
    }
    if names.contains(id) {
        assert(sorted.contains(id));
        let k = choose|k: int| 0 <= k < sorted.len() && sorted[k] == id;
        assert(set[k].0 == id);
    }
}

proof fn lemma_tailored(families: Seq<(Seq<char>, Json)>, i: int, j: int)
    requires
        0 <= i < families.len(),
        0 <= j < json::members_of(Some(families[i].1)).len(),
    ensures
        tailored(families).contains(normal_id(json::members_of(Some(families[i].1))[j].0)),
    decreases families.len(),
{
    let front = families.drop_last();
    let rest = tailored(front);
    let now = tailored(families);
    let id = normal_id(json::members_of(Some(families[i].1))[j].0);
    if i < front.len() {
        assert(front[i] == families[i]);
        lemma_tailored(front, i, j);
        let k = choose|k: int| 0 <= k < rest.len() && rest[k] == id;
        assert(now[k] == id);
    } else {
        let more = normal_ids(table::keys(json::members_of(Some(families.last().1))));
        assert(now == rest + more);
        assert(more[j] == id);
        assert(now[rest.len() + j] == id);
    }
}

proof fn lemma_cited(controls: Seq<Json>, i: int)
    requires
        0 <= i < controls.len(),
        controls[i] is Text,
    ensures
        cited(controls).contains(normal_id(controls[i]->Text_0)),
    decreases controls.len(),
{
    let front = controls.drop_last();
    let rest = cited(front);
    let now = cited(controls);
    let id = normal_id(controls[i]->Text_0);
    if i < front.len() {
        assert(front[i] == controls[i]);
        lemma_cited(front, i);
        let k = choose|k: int| 0 <= k < rest.len() && rest[k] == id;
        assert(now[k] == id);
    } else {
        assert(now[now.len() - 1] == id);
    }
}

proof fn lemma_indicated(indicators: Seq<(Seq<char>, Json)>, i: int, id: Seq<char>)
    requires
        0 <= i < indicators.len(),
        cited(json::items_of(indicators[i].1, "controls"@)).contains(id),
    ensures
        indicated(indicators).contains(id),
    decreases indicators.len(),
{
    let front = indicators.drop_last();
    let rest = indicated(front);
    let now = indicated(indicators);
    if i < front.len() {
        assert(front[i] == indicators[i]);
        lemma_indicated(front, i, id);
        let k = choose|k: int| 0 <= k < rest.len() && rest[k] == id;
        assert(now[k] == id);
    } else {
        let more = cited(json::items_of(indicators.last().1, "controls"@));
        assert(now == rest + more);
        let k = choose|k: int| 0 <= k < more.len() && more[k] == id;
        assert(now[rest.len() + k] == id);
    }
}

proof fn lemma_indicated_all(families: Seq<(Seq<char>, Json)>, i: int, id: Seq<char>)
    requires
        0 <= i < families.len(),
        indicated(json::members_of(families[i].1.get("indicators"@))).contains(id),
    ensures
        indicated_all(families).contains(id),
    decreases families.len(),
{
    let front = families.drop_last();
    let rest = indicated_all(front);
    let now = indicated_all(families);
    if i < front.len() {
        assert(front[i] == families[i]);
        lemma_indicated_all(front, i, id);
        let k = choose|k: int| 0 <= k < rest.len() && rest[k] == id;
        assert(now[k] == id);
    } else {
        let more = indicated(json::members_of(families.last().1.get("indicators"@)));
        assert(now == rest + more);
        let k = choose|k: int| 0 <= k < more.len() && more[k] == id;
        assert(now[rest.len() + k] == id);
    }
}

/// The rules refer to every control that one of their families tailors.
pub proof fn law_tailored_controls_are_referenced(
    rules: Json,
    family: Seq<char>,
    control: Seq<char>,
)
    requires
        json::at(rules, seq!["CTL"@, family, control]) is Some,
    ensures
        table::lookup(references(rules), normal_id(control)) is Some,
{
    let path = seq!["CTL"@, family, control];
    json::lemma_at_first(rules, path);
    assert(path.drop_first() =~= seq![family, control]);
    let ctl = rules.get("CTL"@)->0;
    json::lemma_at_first(ctl, seq![family, control]);
    assert(seq![family, control].drop_first() =~= seq![control]);
    let body = ctl.get(family)->0;
    json::lemma_at_first(body, seq![control]);
    let families = json::members_of(rules.get("CTL"@));
    let i = table::lemma_lookup_index(families, family);
    let controls = json::members_of(Some(families[i].1));
    let j = table::lemma_lookup_index(controls, control);
    lemma_tailored(families, i, j);
    let id = normal_id(control);
    let a = tailored(families);
    let b = indicated_all(json::members_of(rules.get("KSI"@)));
    let k = choose|k: int| 0 <= k < a.len() && a[k] == id;
    assert((a + b)[k] == id);
    lemma_named(a + b, id);
}

/// The rules refer to every control that one of their indicators cites.
pub proof fn law_cited_controls_are_referenced(
    rules: Json,
    family: Seq<char>,
    indicator: Seq<char>,
    controls: Seq<Json>,
    i: int,
)
    requires
        json::at(rules, seq!["KSI"@, family, "indicators"@, indicator, "controls"@]) == Some(
            Json::Array(controls),
        ),
        0 <= i < controls.len(),
        controls[i] is Text,
    ensures
        table::lookup(references(rules), normal_id(controls[i]->Text_0)) is Some,
{
    let p5 = seq!["KSI"@, family, "indicators"@, indicator, "controls"@];
    let p4 = seq![family, "indicators"@, indicator, "controls"@];
    let p3 = seq!["indicators"@, indicator, "controls"@];
    let p2 = seq![indicator, "controls"@];
    let p1 = seq!["controls"@];
    json::lemma_at_first(rules, p5);
    assert(p5.drop_first() =~= p4);
    let ksi = rules.get("KSI"@)->0;
    json::lemma_at_first(ksi, p4);
    assert(p4.drop_first() =~= p3);
    let body = ksi.get(family)->0;
    json::lemma_at_first(body, p3);
    assert(p3.drop_first() =~= p2);
    let group = body.get("indicators"@)->0;
    json::lemma_at_first(group, p2);
    assert(p2.drop_first() =~= p1);
    let leaf = group.get(indicator)->0;
    json::lemma_at_first(leaf, p1);
    assert(p1.drop_first() =~= Seq::<Seq<char>>::empty());
    assert(leaf.get("controls"@) == Some(Json::Array(controls)));
    let id = normal_id(controls[i]->Text_0);
    lemma_cited(controls, i);
    let indicators = json::members_of(body.get("indicators"@));
    let n = table::lemma_lookup_index(indicators, indicator);
    assert(json::items_of(indicators[n].1, "controls"@) == controls);
    lemma_indicated(indicators, n, id);
    let families = json::members_of(rules.get("KSI"@));
    let m = table::lemma_lookup_index(families, family);
    lemma_indicated_all(families, m, id);
    let a = tailored(json::members_of(rules.get("CTL"@)));
    let b = indicated_all(families);
    let k = choose|k: int| 0 <= k < b.len() && b[k] == id;
    assert((a + b)[a.len() + k] == id);
    lemma_named(a + b, id);
}

proof fn lemma_relevant(names: Seq<Seq<char>>, referenced: Seq<(Seq<char>, ())>, id: Seq<char>)
    ensures
        relevant(names, referenced).contains(id) <==> names.contains(id) && table::lookup(
            referenced,
            id,
        ) is Some,
    decreases names.len(),
{
    if names.len() > 0 {
        let front = names.drop_last();
        lemma_relevant(front, referenced, id);
        let rest = relevant(front, referenced);
        let now = relevant(names, referenced);
        if names.contains(id) && names.last() != id {
            let k = choose|k: int| 0 <= k < names.len() && names[k] == id;
            assert(front[k] == id);
        }
        if front.contains(id) {
            let k = choose|k: int| 0 <= k < front.len() && front[k] == id;
            assert(names[k] == id);
        }
        assert(names[names.len() - 1] == names.last());
        if rest.contains(id) {
            let k = choose|k: int| 0 <= k < rest.len() && rest[k] == id;
            assert(now[k] == id);
        }
        if now.contains(id) {
            let k = choose|k: int| 0 <= k < now.len() && now[k] == id;
            if k < rest.len() {
                assert(rest[k] == id);
            }
        }
        if now.len() > rest.len() {
            assert(now[now.len() - 1] == names.last());
        }
    }
}

/// What moved in the catalog is, control by control, what one catalog has and the
/// other lacks and what both have with contents that disagree. Where the rules
/// refer to a control that moved, the change is a major one and says so of that
/// control.
pub proof fn law_every_control_is_compared(
    before: Json,
    after: Json,
    referenced: Seq<(Seq<char>, ())>,
    id: Seq<char>,
)
    ensures
        ({
            let old_control = table::lookup(controls_of(before), id);
            let new_control = table::lookup(controls_of(after), id);
            let found = movement(before, after, referenced);
            &&& found.added.contains(id) <==> old_control is None && new_control is Some
            &&& found.removed.contains(id) <==> old_control is Some && new_control is None
            &&& (exists|k: int|
                0 <= k < found.modified.len() && (#[trigger] found.modified[k]).id == id) <==> (
            old_control is Some && new_control is Some && !json::agree(
                old_control->0,
                new_control->0,
            ))
            &&& forall|k: int|
                0 <= k < found.modified.len() && (#[trigger] found.modified[k]).id == id
                    ==> found.modified[k].fields == diff::field_moves(
                    old_control->0,
                    new_control->0,
                )
            &&& !json::agree_optional(old_control, new_control) && table::lookup(referenced, id)
                is Some ==> found.severity == Severity::Major && found.highlights.contains(
                (Notice {
                    kind: "referenced"@,
                    id,
                    field: "control"@,
                    from: "FedRAMP references this control"@,
                    to: "changed upstream"@,
                }),
            )
            &&& !json::agree_optional(old_control, new_control) ==> found.changed
            &&& found.source == "oscal"@
        }),
{
    let b = controls_of(before);
    let a = controls_of(after);
    law_controls_are_ordered(before);
    let start = diff::still(sources::OSCAL@);
    diff::law_comparison_is_exact(start, b, a, highlight_fields(), "control"@, id);
    let found = diff::compared(start, b, a, highlight_fields(), "control"@);
    let m = movement(before, after, referenced);
    assert(m.added == found.added && m.removed == found.removed && m.modified == found.modified);
    let names = found.added + found.removed + edit_ids(found.modified);
    let sorted = diff::sorted_names(names);
    let touched = relevant(sorted, referenced);
    diff::law_sorted_names_are_the_names(names);
    lemma_relevant(sorted, referenced, id);
    if !json::agree_optional(table::lookup(b, id), table::lookup(a, id)) {
        if found.added.contains(id) {
            let k = choose|k: int| 0 <= k < found.added.len() && found.added[k] == id;
            assert(names[k] == id);
        } else if found.removed.contains(id) {
            let k = choose|k: int| 0 <= k < found.removed.len() && found.removed[k] == id;
            assert(names[found.added.len() + k] == id);
        } else {
            let k = choose|k: int|
                0 <= k < found.modified.len() && (#[trigger] found.modified[k]).id == id;
            assert(edit_ids(found.modified)[k] == id);
            assert(names[found.added.len() + found.removed.len() + k] == id);
        }
        assert(names.contains(id));
        assert(sorted.contains(id));
        assert(!m.quiet());
        if table::lookup(referenced, id) is Some {
            let k = choose|k: int| 0 <= k < touched.len() && touched[k] == id;
            let more = reference_notices(touched);
            let first = found.highlights + revision_notices(before, after);
            assert(m.highlights == first + more);
            assert(m.highlights[first.len() + k] == more[k]);
        }
    }
}

/// A change is major only where a control that moved is one that the rules refer
/// to, and their number is counted.
pub proof fn law_major_means_a_referenced_control(
    before: Json,
    after: Json,
    referenced: Seq<(Seq<char>, ())>,
)
    requires
        movement(before, after, referenced).severity == Severity::Major,
    ensures
        exists|id: Seq<char>|
            #![trigger table::lookup(referenced, id)]
            table::lookup(referenced, id) is Some && !json::agree_optional(
                table::lookup(controls_of(before), id),
                table::lookup(controls_of(after), id),
            ),
{
    let b = controls_of(before);
    let a = controls_of(after);
    let start = diff::still(sources::OSCAL@);
    let found = diff::compared(start, b, a, highlight_fields(), "control"@);
    let names = found.added + found.removed + edit_ids(found.modified);
    let sorted = diff::sorted_names(names);
    let touched = relevant(sorted, referenced);
    assert(touched.len() > 0);
    let id = touched[0];
    assert(touched.contains(id));
    diff::law_sorted_names_are_the_names(names);
    lemma_relevant(sorted, referenced, id);
    law_controls_are_ordered(before);
    diff::law_comparison_is_exact(start, b, a, highlight_fields(), "control"@, id);
    assert(names.contains(id));
    let k = choose|k: int| 0 <= k < names.len() && names[k] == id;
    if k < found.added.len() {
        assert(found.added[k] == id);
    } else if k < found.added.len() + found.removed.len() {
        assert(found.removed[k - found.added.len()] == id);
    } else {
        let j = k - found.added.len() - found.removed.len();
        assert(edit_ids(found.modified)[j] == id);
        assert(found.modified[j].id == id);
    }
    assert(table::lookup(referenced, id) is Some);
}

/// A catalog whose version moved is highlighted with its old version and its new
/// one.
pub proof fn law_revision_is_highlighted(
    before: Json,
    after: Json,
    referenced: Seq<(Seq<char>, ())>,
)
    requires
        version_of(before) != version_of(after),
        version_of(before).len() > 0,
    ensures
        movement(before, after, referenced).changed,
        movement(before, after, referenced).highlights.contains(
            (Notice {
                kind: "catalog"@,
                id: "800-53 revision"@,
                field: "version"@,
                from: version_of(before),
                to: version_of(after),
            }),
        ),
{
    reveal_strlit("");
    let b = controls_of(before);
    let a = controls_of(after);
    let start = diff::still(sources::OSCAL@);
    let found = diff::compared(start, b, a, highlight_fields(), "control"@);
    let m = movement(before, after, referenced);
    let more = revision_notices(before, after);
    assert(more.len() == 1);
    assert(m.highlights[found.highlights.len() as int] == more[0]);
    assert(m.highlights.len() > 0);
}

/// A control whose title or class moved is highlighted with its old value and its
/// new one.
pub proof fn law_watched_fields_are_highlighted(
    before: Json,
    after: Json,
    referenced: Seq<(Seq<char>, ())>,
    id: Seq<char>,
    field: Seq<char>,
    old_map: Seq<(Seq<char>, Json)>,
    new_map: Seq<(Seq<char>, Json)>,
)
    requires
        table::lookup(controls_of(before), id) == Some(Json::Object(old_map)),
        table::lookup(controls_of(after), id) == Some(Json::Object(new_map)),
        table::ordered(old_map),
        table::ordered(new_map),
        field == "title"@ || field == "class"@,
        !json::agree_optional(table::lookup(old_map, field), table::lookup(new_map, field)),
    ensures
        movement(before, after, referenced).highlights.contains(
            (Notice {
                kind: "control"@,
                id,
                field,
                from: diff::rendered(table::lookup(old_map, field)),
                to: diff::rendered(table::lookup(new_map, field)),
            }),
        ),
{
    law_controls_are_ordered(before);
    let watched = highlight_fields();
    assert(watched[0] == "title"@ && watched[1] == "class"@);
    assert(watched.contains(field));
    let b = controls_of(before);
    let a = controls_of(after);
    let start = diff::still(sources::OSCAL@);
    diff::lemma_watched(start, b, a, watched, "control"@, id, field, old_map, new_map);
    let found = diff::compared(start, b, a, watched, "control"@);
    let n = Notice {
        kind: "control"@,
        id,
        field,
        from: diff::rendered(table::lookup(old_map, field)),
        to: diff::rendered(table::lookup(new_map, field)),
    };
    let k = choose|k: int| 0 <= k < found.highlights.len() && found.highlights[k] == n;
    assert(movement(before, after, referenced).highlights[k] == n);
}

/// A catalog's version is the one in its metadata.
pub proof fn law_version_is_in_the_metadata(doc: Json)
    ensures
        match doc.get("catalog"@) {
            Some(catalog) => match catalog.get("metadata"@) {
                Some(metadata) => match metadata.get("version"@) {
                    Some(Json::Text(version)) => version_of(doc) == version,
                    _ => version_of(doc).len() == 0,
                },
                None => version_of(doc).len() == 0,
            },
            None => version_of(doc).len() == 0,
        },
{
    reveal_strlit("");
    let p3 = seq!["catalog"@, "metadata"@, "version"@];
    let p2 = seq!["metadata"@, "version"@];
    let p1 = seq!["version"@];
    json::lemma_at_first(doc, p3);
    assert(p3.drop_first() =~= p2);
    if let Some(catalog) = doc.get("catalog"@) {
        json::lemma_at_first(catalog, p2);
        assert(p2.drop_first() =~= p1);
        if let Some(metadata) = catalog.get("metadata"@) {
            json::lemma_at_first(metadata, p1);
            assert(p1.drop_first() =~= Seq::<Seq<char>>::empty());
        }
    }
}

} // verus!
