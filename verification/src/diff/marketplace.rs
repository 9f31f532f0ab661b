//! Marketplace diff.
//!
//! Two upstream facts shape this: the file is rewritten daily whether or not
//! anything moved, and `ReuseMapping` has no usable key (316 distinct ids
//! across 2813 rows), so it is compared as a multiset.

use vstd::multiset::Multiset;
use vstd::prelude::*;

use crate::canon;
use crate::diff;
use crate::diff::{Delta, Edit, FieldMove, Modified, Movement, Notice};
use crate::json;
use crate::json::{Doc, Json};
use crate::outside;
use crate::severity::Severity;
use crate::sources;
use crate::table;
use crate::table::Table;
use crate::text;

verus! {

/// Field changes that reflect a real authorization event.
pub open spec fn material_fields() -> Seq<Seq<char>> {
    seq![
        "status"@,
        "auth_type"@,
        "auth_date"@,
        "impact_level"@,
        "impact_level_number"@,
        "fedramp_ready"@,
        "fedramp_auth"@,
        "ready_status"@,
        "ready_date"@,
        "ip_jab_status"@,
        "ip_prog_status"@,
        "ip_agency_status"@,
        "ip_pmo_status"@,
        "annual_assessment"@,
        "independent_assessor"@,
    ]
}

/// The one collection with no stable key; compared as a multiset of rows.
pub const UNKEYED: &'static str = "ReuseMapping";

// Rows.

pub open spec fn row_id(row: Json) -> Seq<char> {
    diff::rendered(row.get("id"@))
}

/// Every row has an id, and no two have the same.
pub open spec fn uniquely_keyed(rows: Seq<Json>) -> bool {
    &&& forall|i: int| 0 <= i < rows.len() ==> row_id(#[trigger] rows[i]) != "(absent)"@
    &&& forall|i: int, j: int|
        0 <= i < j < rows.len() ==> row_id(#[trigger] rows[i]) != row_id(#[trigger] rows[j])
}

/// Rows by collection and id; a later row replaces an earlier one.
pub open spec fn keyed(name: Seq<char>, rows: Seq<Json>) -> Seq<(Seq<char>, Json)>
    decreases rows.len(),
{
    if rows.len() == 0 {
        Seq::empty()
    } else {
        table::put(
            keyed(name, rows.drop_last()),
            name + "/"@ + row_id(rows.last()),
            rows.last(),
        )
    }
}

/// What tells one row from another: its digest, or its text where it has none.
pub open spec fn row_mark(row: Json) -> Seq<char> {
    match canon::document_digest(row) {
        Ok(digest) => digest,
        Err(_) => outside::json_text(row),
    }
}

pub open spec fn row_marks(rows: Seq<Json>) -> Multiset<Seq<char>> {
    rows.map_values(|row: Json| row_mark(row)).to_multiset()
}

/// How many of `rows` are not matched, one for one, by `others`.
pub open spec fn unmatched(rows: Seq<Json>, others: Seq<Json>) -> nat {
    row_marks(rows).sub(row_marks(others)).len()
}

fn all_unique(rows: &Vec<Doc>) -> (unique: bool)
    ensures
        unique == uniquely_keyed(json::jsons(rows@)),
{
    let mut seen: Vec<String> = Vec::new();
    let ghost all = json::jsons(rows@);
    let mut i: usize = 0;
    while i < rows.len()
        invariant
            i <= rows@.len(),
            all == json::jsons(rows@),
            seen@.len() == i,
            forall|j: int| 0 <= j < i ==> (#[trigger] seen@[j])@ == row_id(all[j]),
            forall|j: int| 0 <= j < i ==> row_id(#[trigger] all[j]) != "(absent)"@,
            forall|j: int, k: int|
                0 <= j < k < i ==> row_id(#[trigger] all[j]) != row_id(#[trigger] all[k]),
        decreases rows@.len() - i,
    {
        let id = diff::render(rows[i].get("id"));
        assert(id@ == row_id(all[i as int]));
        if text::same_text(id.as_str(), "(absent)") {
            return false;
        }
        let mut j: usize = 0;
        while j < seen.len()
            invariant
                j <= seen@.len(),
                seen@.len() == i,
                i < rows@.len(),
                all == json::jsons(rows@),
                id@ == row_id(all[i as int]),
                forall|k: int| 0 <= k < i ==> (#[trigger] seen@[k])@ == row_id(all[k]),
                forall|k: int| 0 <= k < j ==> row_id(#[trigger] all[k]) != id@,
            decreases seen@.len() - j,
        {
            if text::same_text(seen[j].as_str(), id.as_str()) {
                assert(row_id(all[j as int]) == row_id(all[i as int]));
                return false;
            }
            assert(seen@[j as int]@ != id@);
            j += 1;
        }
        seen.push(id);
        i += 1;
    }
    true
}

fn key_rows(name: &str, rows: &Vec<Doc>) -> (map: Table<Doc>)
    ensures
        map.members() == keyed(name@, json::jsons(rows@)),
{
    broadcast use json::lemma_members;

    let mut map: Table<Doc> = Table::new();
    let ghost all = json::jsons(rows@);
    let mut i: usize = 0;
    assert(map.members() =~= keyed(name@, all.take(0)));
    while i < rows.len()
        invariant
            i <= rows@.len(),
            all == json::jsons(rows@),
            map.members() == keyed(name@, all.take(i as int)),
        decreases rows@.len() - i,
    {
        let mut key = name.to_owned();
        key.push_str("/");
        key.push_str(diff::render(rows[i].get("id")).as_str());
        proof {
            assert(all.take(i + 1).drop_last() =~= all.take(i as int));
            assert(all.take(i + 1).last() == rows@[i as int]@);
        }
        map.set(key.as_str(), rows[i].duplicate());
        i += 1;
    }
    assert(all.take(all.len() as int) =~= all);
    map
}

fn mark_row(row: &Doc) -> (mark: String)
    ensures
        mark@ == row_mark(row@),
{
    match canon::digest_value(row) {
        Ok(digest) => digest,
        Err(_) => outside::compact_text(row),
    }
}

fn mark_rows(rows: &Vec<Doc>) -> (marks: Vec<String>)
    ensures
        text::texts(marks@) == json::jsons(rows@).map_values(|row: Json| row_mark(row)),
{
    let mut marks: Vec<String> = Vec::new();
    let mut i: usize = 0;
    while i < rows.len()
        invariant
            i <= rows@.len(),
            marks@.len() == i,
            forall|j: int| 0 <= j < i ==> (#[trigger] marks@[j])@ == row_mark(rows@[j]@),
        decreases rows@.len() - i,
    {
        marks.push(mark_row(&rows[i]));
        i += 1;
    }
    assert(text::texts(marks@) =~= json::jsons(rows@).map_values(|row: Json| row_mark(row)));
    marks
}

/// Where `mark` stands in `marks`, if it does.
fn position(marks: &Vec<String>, mark: &str) -> (at: Option<usize>)
    ensures
        match at {
            Some(i) => i < marks@.len() && marks@[i as int]@ == mark@,
            None => !text::texts(marks@).contains(mark@),
        },
{
    let mut i: usize = 0;
    while i < marks.len()
        invariant
            i <= marks@.len(),
            forall|j: int| 0 <= j < i ==> (#[trigger] text::texts(marks@)[j]) != mark@,
        decreases marks@.len() - i,
    {
        if text::same_text(marks[i].as_str(), mark) {
            return Some(i);
        }
        i += 1;
    }
    None
}

/// How many of the new rows are additions, and how many of the old are gone.
fn tally(old_rows: &Vec<Doc>, new_rows: &Vec<Doc>) -> (r: (usize, usize))
    ensures
        r.0 == unmatched(json::jsons(new_rows@), json::jsons(old_rows@)),
        r.1 == unmatched(json::jsons(old_rows@), json::jsons(new_rows@)),
{
    broadcast use vstd::multiset::group_multiset_axioms, vstd::seq_lib::group_to_multiset_ensures;

    let mut remaining = mark_rows(old_rows);
    let news = mark_rows(new_rows);
    let ghost all = text::texts(news@);
    let ghost olds = row_marks(json::jsons(old_rows@));
    let mut added: usize = 0;
    let mut i: usize = 0;
    assert(all.take(0) =~= Seq::<Seq<char>>::empty());
    assert(all.take(0).to_multiset() =~= Multiset::<Seq<char>>::empty());
    assert(olds.sub(all.take(0).to_multiset()) =~= olds);
    assert(all.take(0).to_multiset().sub(olds) =~= Multiset::<Seq<char>>::empty());
    while i < news.len()
        invariant
            i <= news@.len(),
            added <= i,
            all == text::texts(news@),
            text::texts(remaining@).to_multiset() == olds.sub(all.take(i as int).to_multiset()),
            added == all.take(i as int).to_multiset().sub(olds).len(),
        decreases news@.len() - i,
    {
        let mark = &news[i];
        let ghost before = all.take(i as int).to_multiset();
        let ghost after = all.take(i + 1).to_multiset();
        let ghost left = text::texts(remaining@);
        proof {
            assert(all.take(i + 1) =~= all.take(i as int).push(mark@));
            vstd::seq_lib::to_multiset_build(all.take(i as int), mark@);
            left.to_multiset_ensures();
        }
        match position(&remaining, mark.as_str()) {
            Some(at) => {
                proof {
                    assert(left[at as int] == mark@);
                    assert(left.contains(mark@));
                    assert(left.to_multiset().count(mark@) > 0);
                }
                remaining.remove(at);
                proof {
                    assert(text::texts(remaining@) =~= left.remove(at as int));
                    vstd::seq_lib::to_multiset_remove(left, at as int);
                    assert(left.remove(at as int).to_multiset() =~= left.to_multiset().remove(
                        mark@,
                    ));
                    assert(olds.sub(after) =~= olds.sub(before).remove(mark@));
                    assert(after.sub(olds) =~= before.sub(olds));
                }
            },
            None => {
                proof {
                    assert(left.to_multiset().count(mark@) == 0);
                    assert(olds.sub(after) =~= olds.sub(before));
                    assert(after.sub(olds) =~= before.sub(olds).insert(mark@));
                }
                added += 1;
            },
        }
        i += 1;
    }
    proof {
        assert(all.take(all.len() as int) =~= all);
        assert(all.to_multiset() == row_marks(json::jsons(new_rows@)));
        assert(text::texts(remaining@).len() == remaining@.len());
    }
    (added, remaining.len())
}

// Collections.

/// Rows are indistinguishable, so only the net add/remove counts are truthful.
pub open spec fn with_tally(
    delta: Movement,
    name: Seq<char>,
    old_rows: Seq<Json>,
    new_rows: Seq<Json>,
) -> Movement {
    let added = unmatched(new_rows, old_rows);
    let removed = unmatched(old_rows, new_rows);
    let counts = if added > 0 {
        table::put(delta.counts, name + ".rows_added"@, added as usize)
    } else {
        delta.counts
    };
    Movement {
        counts: if removed > 0 {
            table::put(counts, name + ".rows_removed"@, removed as usize)
        } else {
            counts
        },
        ..delta
    }
}

pub open spec fn with_collection(
    delta: Movement,
    name: Seq<char>,
    old_rows: Seq<Json>,
    new_rows: Seq<Json>,
) -> Movement {
    if name == UNKEYED@ {
        with_tally(delta, name, old_rows, new_rows)
    } else if !uniquely_keyed(new_rows) {
        with_tally(
            Movement {
                drift: delta.drift.push(
                    "`"@ + name
                        + "` rows are not uniquely keyed by id — compared as a multiset"@,
                ),
                ..delta
            },
            name,
            old_rows,
            new_rows,
        )
    } else {
        diff::compared(
            delta,
            keyed(name, old_rows),
            keyed(name, new_rows),
            material_fields(),
            "marketplace"@,
        )
    }
}

/// `Metrics` and `Filters` are objects, not collections; report field moves.
pub open spec fn with_opaque(
    delta: Movement,
    name: Seq<char>,
    before: Option<Json>,
    after: Option<Json>,
) -> Movement {
    match (before, after) {
        (None, Some(_)) => Movement { added: delta.added.push(name), ..delta },
        (Some(_), None) => Movement { removed: delta.removed.push(name), ..delta },
        (Some(b), Some(a)) => if json::agree(b, a) {
            delta
        } else {
            Movement {
                modified: delta.modified.push(Edit { id: name, fields: diff::field_moves(b, a) }),
                ..delta
            }
        },
        (None, None) => delta,
    }
}

pub open spec fn with_member(
    delta: Movement,
    name: Seq<char>,
    before: Option<Json>,
    after: Option<Json>,
) -> Movement {
    match (before, after) {
        (Some(Json::Array(old_rows)), Some(Json::Array(new_rows))) => with_collection(
            delta,
            name,
            old_rows,
            new_rows,
        ),
        (None, Some(Json::Array(new_rows))) => with_collection(
            delta,
            name,
            Seq::empty(),
            new_rows,
        ),
        (Some(Json::Array(old_rows)), None) => with_collection(
            delta,
            name,
            old_rows,
            Seq::empty(),
        ),
        _ => with_opaque(delta, name, before, after),
    }
}

pub open spec fn with_members(
    delta: Movement,
    names: Seq<Seq<char>>,
    before: Json,
    after: Json,
) -> Movement
    decreases names.len(),
{
    if names.len() == 0 {
        delta
    } else {
        with_member(
            with_members(delta, names.drop_last(), before, after),
            names.last(),
            before.get(names.last()),
            after.get(names.last()),
        )
    }
}

/// Product churn is mostly counters ticking; only authorization events are
/// worth interrupting a human for.
pub open spec fn classified(delta: Movement) -> Severity {
    if delta.quiet() {
        Severity::Unchanged
    } else if names_product(delta.added) || names_product(delta.removed) || delta.highlights.len()
        > 0 {
        Severity::Minor
    } else {
        Severity::Routine
    }
}

pub open spec fn names_product(ids: Seq<Seq<char>>) -> bool {
    exists|i: int| 0 <= i < ids.len() && text::begins(#[trigger] ids[i], "Products/"@)
}

/// The part of a snapshot that is compared.
pub open spec fn data_of(doc: Json) -> Json {
    match doc.get("data"@) {
        Some(data) => data,
        None => doc,
    }
}

/// What moved between two marketplace snapshots.
pub open spec fn movement(before: Json, after: Json) -> Movement {
    let old_data = data_of(before);
    let new_data = data_of(after);
    let names = diff::sorted_names(
        table::keys(json::members_of(Some(old_data))) + table::keys(
            json::members_of(Some(new_data)),
        ),
    );
    let found = with_members(diff::still(sources::MARKETPLACE@), names, old_data, new_data);
    Movement { changed: !found.quiet(), severity: classified(found), ..found }
}

fn diff_multiset(name: &str, old_rows: &Vec<Doc>, new_rows: &Vec<Doc>, delta: &mut Delta)
    ensures
        final(delta)@ == with_tally(
            old(delta)@,
            name@,
            json::jsons(old_rows@),
            json::jsons(new_rows@),
        ),
{
    let (added, removed) = tally(old_rows, new_rows);
    if added > 0 {
        let mut key = name.to_owned();
        key.push_str(".rows_added");
        delta.counts.insert(key, added);
    }
    if removed > 0 {
        let mut key = name.to_owned();
        key.push_str(".rows_removed");
        delta.counts.insert(key, removed);
    }
}

fn diff_collection(name: &str, old_rows: &Vec<Doc>, new_rows: &Vec<Doc>, delta: &mut Delta)
    ensures
        final(delta)@ == with_collection(
            old(delta)@,
            name@,
            json::jsons(old_rows@),
            json::jsons(new_rows@),
        ),
{
    if text::same_text(name, UNKEYED) {
        diff_multiset(name, old_rows, new_rows, delta);
    } else if !all_unique(new_rows) {
        let mut line = "`".to_owned();
        line.push_str(name);
        line.push_str("` rows are not uniquely keyed by id — compared as a multiset");
        proof {
            text::lemma_texts_push(delta.drift@, line);
        }
        delta.drift.push(line);
        diff_multiset(name, old_rows, new_rows, delta);
    } else {
        let fields = [
            "status",
            "auth_type",
            "auth_date",
            "impact_level",
            "impact_level_number",
            "fedramp_ready",
            "fedramp_auth",
            "ready_status",
            "ready_date",
            "ip_jab_status",
            "ip_prog_status",
            "ip_agency_status",
            "ip_pmo_status",
            "annual_assessment",
            "independent_assessor",
        ];
        assert(json::strs(fields@) =~= material_fields());
        let before = key_rows(name, old_rows);
        let after = key_rows(name, new_rows);
        diff::compare_maps(&before, &after, delta, &fields, "marketplace");
    }
}

fn diff_opaque(name: &str, before: Option<&Doc>, after: Option<&Doc>, delta: &mut Delta)
    ensures
        final(delta)@ == with_opaque(
            old(delta)@,
            name@,
            json::opt_json(before),
            json::opt_json(after),
        ),
{
    match (before, after) {
        (None, Some(_)) => {
            let name = name.to_owned();
            proof {
                text::lemma_texts_push(delta.added@, name);
            }
            delta.added.push(name);
        },
        (Some(_), None) => {
            let name = name.to_owned();
            proof {
                text::lemma_texts_push(delta.removed@, name);
            }
            delta.removed.push(name);
        },
        (Some(b), Some(a)) => {
            if !b.same(a) {
                let entry = Modified { id: name.to_owned(), fields: diff::field_changes(b, a) };
                assert(diff::edits(delta.modified@.push(entry)) =~= diff::edits(
                    delta.modified@,
                ).push(entry@));
                delta.modified.push(entry);
            }
        },
        (None, None) => {},
    }
}

fn diff_member(name: &str, before: Option<&Doc>, after: Option<&Doc>, delta: &mut Delta)
    ensures
        final(delta)@ == with_member(
            old(delta)@,
            name@,
            json::opt_json(before),
            json::opt_json(after),
        ),
{
    broadcast use json::lemma_array_json;

    let none: Vec<Doc> = Vec::new();
    assert(json::jsons(none@) =~= Seq::<Json>::empty());
    match (before, after) {
        (Some(Doc::Array(old_rows)), Some(Doc::Array(new_rows))) => {
            diff_collection(name, old_rows, new_rows, delta);
        },
        (None, Some(Doc::Array(new_rows))) => {
            diff_collection(name, &none, new_rows, delta);
        },
        (Some(Doc::Array(old_rows)), None) => {
            diff_collection(name, old_rows, &none, delta);
        },
        _ => {
            diff_opaque(name, before, after, delta);
        },
    }
}

fn any_product(ids: &Vec<String>) -> (yes: bool)
    ensures
        yes == names_product(text::texts(ids@)),
{
    let mut i: usize = 0;
    while i < ids.len()
        invariant
            i <= ids@.len(),
            forall|j: int|
                0 <= j < i ==> !text::begins(#[trigger] text::texts(ids@)[j], "Products/"@),
        decreases ids@.len() - i,
    {
        if text::starts_with(ids[i].as_str(), "Products/") {
            assert(text::begins(text::texts(ids@)[i as int], "Products/"@));
            return true;
        }
        i += 1;
    }
    false
}

fn classify(delta: &Delta) -> (severity: Severity)
    ensures
        severity == classified(delta@),
{
    if delta.is_empty() {
        Severity::Unchanged
    } else if any_product(&delta.added) || any_product(&delta.removed) || delta.highlights.len()
        > 0 {
        Severity::Minor
    } else {
        Severity::Routine
    }
}

pub fn data<'a>(doc: &'a Doc) -> (data: &'a Doc)
    ensures
        data@ == data_of(doc@),
{
    match doc.get("data") {
        Some(data) => data,
        None => doc,
    }
}

fn diff_members(names: &Table<()>, before: &Doc, after: &Doc, delta: &mut Delta)
    ensures
        final(delta)@ == with_members(old(delta)@, table::keys(names@), before@, after@),
{
    let ghost start = delta@;
    let ghost all = table::keys(names@);
    let mut i: usize = 0;
    while i < names.len()
        invariant
            i <= names@.len(),
            all == table::keys(names@),
            delta@ == with_members(start, all.take(i as int), before@, after@),
        decreases names@.len() - i,
    {
        let name = names.key(i);
        proof {
            assert(all.take(i + 1).drop_last() =~= all.take(i as int));
            assert(all.take(i + 1).last() == name@);
        }
        diff_member(name, before.get(name), after.get(name), delta);
        i += 1;
    }
    assert(all.take(all.len() as int) =~= all);
}

pub fn diff(before: &Doc, after: &Doc) -> (delta: Delta)
    ensures
        delta@ == movement(before@, after@),
{
    let mut delta = Delta::new(sources::MARKETPLACE);
    let old_data = data(before);
    let new_data = data(after);
    let names = diff::all_keys(old_data, new_data);
    diff_members(&names, old_data, new_data, &mut delta);
    let severity = classify(&delta);
    delta.changed = !delta.is_empty();
    delta.severity = severity;
    delta
}

// Laws.

/// Alike in all but the notes on upstream's shape.
pub open spec fn alike_but_drift(a: Movement, b: Movement) -> bool {
    a == Movement { drift: a.drift, ..b }
}

proof fn lemma_keyed_ordered(name: Seq<char>, rows: Seq<Json>)
    ensures
        table::ordered(keyed(name, rows)),
    decreases rows.len(),
{
    if rows.len() > 0 {
        lemma_keyed_ordered(name, rows.drop_last());
        table::lemma_put_ordered(
            keyed(name, rows.drop_last()),
            name + "/"@ + row_id(rows.last()),
            rows.last(),
        );
    }
}

proof fn lemma_same_rows(rows: Seq<Json>)
    ensures
        unmatched(rows, rows) == 0,
{
    broadcast use vstd::multiset::group_multiset_axioms;

    let m = row_marks(rows);
    assert(m.sub(m) =~= Multiset::<Seq<char>>::empty());
}

proof fn lemma_marks_of_permuted(a: Seq<Json>, b: Seq<Json>)
    requires
        a.to_multiset() == b.to_multiset(),
    ensures
        row_marks(a) == row_marks(b),
    decreases a.len(),
{
    broadcast use vstd::multiset::group_multiset_axioms;

    let f = |row: Json| row_mark(row);
    a.to_multiset_ensures();
    b.to_multiset_ensures();
    if a.len() > 0 {
        let x = a.last();
        let last = a.len() - 1;
        assert(a[last] == x);
        assert(a.contains(x));
        assert(b.to_multiset().count(x) > 0);
        let i = choose|i: int| 0 <= i < b.len() && b[i] == x;
        vstd::seq_lib::to_multiset_remove(a, last);
        vstd::seq_lib::to_multiset_remove(b, i);
        assert(a.remove(last) =~= a.drop_last());
        lemma_marks_of_permuted(a.drop_last(), b.remove(i));
        let marks = a.map_values(f);
        let others = b.map_values(f);
        assert(marks.remove(last) =~= a.drop_last().map_values(f));
        assert(others.remove(i) =~= b.remove(i).map_values(f));
        vstd::seq_lib::to_multiset_remove(marks, last);
        vstd::seq_lib::to_multiset_remove(others, i);
        marks.to_multiset_ensures();
        others.to_multiset_ensures();
        assert(marks[last] == row_mark(x) && others[i] == row_mark(x));
        assert(marks.contains(row_mark(x)) && others.contains(row_mark(x)));
        assert(marks.to_multiset() =~= marks.to_multiset().remove(row_mark(x)).insert(
            row_mark(x),
        ));
        assert(others.to_multiset() =~= others.to_multiset().remove(row_mark(x)).insert(
            row_mark(x),
        ));
    } else {
        assert(a =~= b);
    }
}

proof fn lemma_keyed_lookup(name: Seq<char>, rows: Seq<Json>, i: int)
    requires
        uniquely_keyed(rows),
        0 <= i < rows.len(),
    ensures
        table::lookup(keyed(name, rows), name + "/"@ + row_id(rows[i])) == Some(rows[i]),
    decreases rows.len(),
{
    let rest = rows.drop_last();
    lemma_keyed_ordered(name, rest);
    table::lemma_put_lookup(
        keyed(name, rest),
        name + "/"@ + row_id(rows.last()),
        rows.last(),
        name + "/"@ + row_id(rows[i]),
    );
    if i < rest.len() {
        assert forall|j: int, k: int| 0 <= j < k < rest.len() implies row_id(
            #[trigger] rest[j],
        ) != row_id(#[trigger] rest[k]) by {
            assert(rows[j] == rest[j] && rows[k] == rest[k]);
        }
        assert forall|j: int| 0 <= j < rest.len() implies row_id(#[trigger] rest[j])
            != "(absent)"@ by {
            assert(rows[j] == rest[j]);
        }
        lemma_keyed_lookup(name, rest, i);
        lemma_row_keys_differ(name, row_id(rows[i]), row_id(rows[rows.len() - 1]));
    }
}

proof fn lemma_row_keys_differ(name: Seq<char>, a: Seq<char>, b: Seq<char>)
    requires
        a != b,
    ensures
        name + "/"@ + a != name + "/"@ + b,
{
    let stem = name + "/"@;
    if stem + a == stem + b {
        assert((stem + a).skip(stem.len() as int) =~= a);
        assert((stem + b).skip(stem.len() as int) =~= b);
    }
}

proof fn lemma_keyed_source(name: Seq<char>, rows: Seq<Json>, key: Seq<char>) -> (i: int)
    ensures
        table::lookup(keyed(name, rows), key) matches Some(v) ==> 0 <= i < rows.len() && rows[i]
            == v && key == name + "/"@ + row_id(rows[i]),
    decreases rows.len(),
{
    if rows.len() == 0 {
        0
    } else {
        let rest = rows.drop_last();
        lemma_keyed_ordered(name, rest);
        table::lemma_put_lookup(
            keyed(name, rest),
            name + "/"@ + row_id(rows.last()),
            rows.last(),
            key,
        );
        if key == name + "/"@ + row_id(rows.last()) {
            rows.len() - 1
        } else {
            lemma_keyed_source(name, rest, key)
        }
    }
}

proof fn lemma_permuted_has(a: Seq<Json>, b: Seq<Json>, i: int) -> (k: int)
    requires
        a.to_multiset() == b.to_multiset(),
        0 <= i < a.len(),
    ensures
        0 <= k < b.len(),
        b[k] == a[i],
{
    a.to_multiset_ensures();
    b.to_multiset_ensures();
    assert(a.contains(a[i]));
    assert(a.to_multiset().count(a[i]) > 0);
    assert(b.to_multiset().count(a[i]) > 0);
    choose|k: int| 0 <= k < b.len() && b[k] == a[i]
}

proof fn lemma_permuted_unique(a: Seq<Json>, b: Seq<Json>)
    requires
        a.to_multiset() == b.to_multiset(),
        uniquely_keyed(b),
    ensures
        uniquely_keyed(a),
{
    broadcast use vstd::multiset::group_multiset_axioms;

    a.to_multiset_ensures();
    b.to_multiset_ensures();
    assert forall|i: int| 0 <= i < a.len() implies row_id(#[trigger] a[i]) != "(absent)"@ by {
        let k = lemma_permuted_has(a, b, i);
        assert(row_id(b[k]) != "(absent)"@);
    }
    assert forall|i: int, j: int| 0 <= i < j < a.len() implies row_id(#[trigger] a[i]) != row_id(
        #[trigger] a[j],
    ) by {
        let x = a[i];
        let p = lemma_permuted_has(a, b, i);
        let q = lemma_permuted_has(a, b, j);
        if row_id(x) == row_id(a[j]) {
            assert(p == q);
            let fewer = a.remove(i);
            fewer.to_multiset_ensures();
            assert(fewer[j - 1] == x);
            assert(fewer.contains(x));
            assert(fewer.to_multiset().count(x) > 0);
            let others = b.remove(p);
            others.to_multiset_ensures();
            assert(others.to_multiset().count(x) > 0);
            let k = choose|k: int| 0 <= k < others.len() && others[k] == x;
            let at = if k < p {
                k
            } else {
                k + 1
            };
            assert(b[at] == x && at != p);
            assert(false);
        }
    }
}

proof fn lemma_keyed_permuted(name: Seq<char>, a: Seq<Json>, b: Seq<Json>)
    requires
        a.to_multiset() == b.to_multiset(),
        uniquely_keyed(b),
    ensures
        keyed(name, a) == keyed(name, b),
{
    lemma_permuted_unique(a, b);
    lemma_keyed_ordered(name, a);
    lemma_keyed_ordered(name, b);
    assert forall|key: Seq<char>| #[trigger]
        table::lookup(keyed(name, a), key) == table::lookup(keyed(name, b), key) by {
        let i = lemma_keyed_source(name, a, key);
        let j = lemma_keyed_source(name, b, key);
        if table::lookup(keyed(name, a), key) is Some {
            let k = lemma_permuted_has(a, b, i);
            lemma_keyed_lookup(name, b, k);
        } else if table::lookup(keyed(name, b), key) is Some {
            let k = lemma_permuted_has(b, a, j);
            lemma_keyed_lookup(name, a, k);
        }
    }
    table::lemma_same_map(keyed(name, a), keyed(name, b));
}

/// The same value, or two arrays of the same rows in some order.
pub open spec fn same_rows(a: Option<Json>, b: Option<Json>) -> bool {
    a == b || match (a, b) {
        (Some(Json::Array(x)), Some(Json::Array(y))) => x.to_multiset() == y.to_multiset(),
        _ => false,
    }
}

proof fn lemma_same_member(delta: Movement, name: Seq<char>, v: Option<Json>, w: Option<Json>)
    requires
        same_rows(v, w),
    ensures
        alike_but_drift(with_member(delta, name, v, w), delta),
{
    broadcast use json::lemma_agree_self;

    match (v, w) {
        (Some(Json::Array(rows)), Some(Json::Array(others))) => {
            lemma_marks_of_permuted(rows, others);
            lemma_same_rows(rows);
            lemma_same_rows(others);
            if uniquely_keyed(others) {
                lemma_keyed_permuted(name, rows, others);
                lemma_keyed_ordered(name, others);
                diff::law_same_maps_compare_equal(
                    delta,
                    keyed(name, others),
                    material_fields(),
                    "marketplace"@,
                );
            }
        },
        _ => {},
    }
}

proof fn lemma_same_members(delta: Movement, names: Seq<Seq<char>>, a: Json, b: Json)
    requires
        forall|name: Seq<char>| same_rows(#[trigger] a.get(name), b.get(name)),
    ensures
        alike_but_drift(with_members(delta, names, a, b), delta),
    decreases names.len(),
{
    if names.len() > 0 {
        lemma_same_members(delta, names.drop_last(), a, b);
        lemma_same_member(
            with_members(delta, names.drop_last(), a, b),
            names.last(),
            a.get(names.last()),
            b.get(names.last()),
        );
    }
}

/// The order in which upstream lists its rows does not count: where every
/// collection holds the same rows, nothing has changed.
pub proof fn law_row_order_does_not_count(before: Json, after: Json)
    requires
        forall|name: Seq<char>|
            same_rows(#[trigger] data_of(before).get(name), data_of(after).get(name)),
    ensures
        !movement(before, after).changed,
        movement(before, after).severity == Severity::Unchanged,
        movement(before, after).highlights.len() == 0,
{
    let names = diff::sorted_names(
        table::keys(json::members_of(Some(data_of(before)))) + table::keys(
            json::members_of(Some(data_of(after))),
        ),
    );
    lemma_same_members(
        diff::still(sources::MARKETPLACE@),
        names,
        data_of(before),
        data_of(after),
    );
}

/// Upstream rewrites the file daily: where the data is the same, nothing has
/// changed, whatever stands around it.
pub proof fn law_only_the_data_counts(before: Json, after: Json)
    requires
        data_of(before) == data_of(after),
    ensures
        !movement(before, after).changed,
        movement(before, after).severity == Severity::Unchanged,
        movement(before, after).highlights.len() == 0,
{
    law_row_order_does_not_count(before, after);
}

/// The marketplace alone is never louder than minor.
pub proof fn law_never_louder_than_minor(before: Json, after: Json)
    ensures
        movement(before, after).severity.rank() <= Severity::Minor.rank(),
        movement(before, after).changed <==> movement(before, after).severity
            != Severity::Unchanged,
{
}

// What is reported of a collection.

/// Whatever one movement reports, the other reports too.
spec fn grows(a: Movement, b: Movement) -> bool {
    &&& forall|id: Seq<char>| a.added.contains(id) ==> #[trigger] b.added.contains(id)
    &&& forall|id: Seq<char>| a.removed.contains(id) ==> #[trigger] b.removed.contains(id)
    &&& forall|e: Edit| a.modified.contains(e) ==> #[trigger] b.modified.contains(e)
    &&& forall|n: Notice| a.highlights.contains(n) ==> #[trigger] b.highlights.contains(n)
    &&& forall|d: Seq<char>| a.drift.contains(d) ==> #[trigger] b.drift.contains(d)
}

proof fn lemma_more<T>(a: Seq<T>, b: Seq<T>)
    ensures
        forall|x: T| a.contains(x) || b.contains(x) <==> #[trigger] (a + b).contains(x),
{
    assert forall|x: T| a.contains(x) || b.contains(x) <==> #[trigger] (a + b).contains(x) by {
        if a.contains(x) {
            let i = choose|i: int| 0 <= i < a.len() && a[i] == x;
            assert((a + b)[i] == x);
        }
        if b.contains(x) {
            let i = choose|i: int| 0 <= i < b.len() && b[i] == x;
            assert((a + b)[a.len() + i] == x);
        }
        if (a + b).contains(x) {
            let i = choose|i: int| 0 <= i < (a + b).len() && (a + b)[i] == x;
            if i < a.len() {
                assert(a[i] == x);
            } else {
                assert(b[i - a.len()] == x);
            }
        }
    }
}

proof fn lemma_pushed<T>(a: Seq<T>, y: T)
    ensures
        forall|x: T| a.contains(x) || x == y <==> #[trigger] a.push(y).contains(x),
{
    assert forall|x: T| a.contains(x) || x == y <==> #[trigger] a.push(y).contains(x) by {
        if a.contains(x) {
            let i = choose|i: int| 0 <= i < a.len() && a[i] == x;
            assert(a.push(y)[i] == x);
        }
        assert(a.push(y)[a.len() as int] == y);
        if a.push(y).contains(x) {
            let i = choose|i: int| 0 <= i < a.push(y).len() && a.push(y)[i] == x;
            if i < a.len() {
                assert(a[i] == x);
            }
        }
    }
}

proof fn lemma_collection_grows(
    delta: Movement,
    name: Seq<char>,
    old_rows: Seq<Json>,
    new_rows: Seq<Json>,
)
    ensures
        grows(delta, with_collection(delta, name, old_rows, new_rows)),
{
    lemma_pushed(
        delta.drift,
        "`"@ + name + "` rows are not uniquely keyed by id — compared as a multiset"@,
    );
    let b = keyed(name, old_rows);
    let a = keyed(name, new_rows);
    lemma_more(delta.added, diff::absent_keys(a, b));
    lemma_more(delta.removed, diff::absent_keys(b, a));
    lemma_more(delta.modified, diff::edited(b, a));
    lemma_more(
        delta.highlights,
        diff::promoted_all(diff::edited(b, a), material_fields(), "marketplace"@),
    );
}

proof fn lemma_member_grows(
    delta: Movement,
    name: Seq<char>,
    before: Option<Json>,
    after: Option<Json>,
)
    ensures
        grows(delta, with_member(delta, name, before, after)),
{
    match (before, after) {
        (Some(Json::Array(old_rows)), Some(Json::Array(new_rows))) => {
            lemma_collection_grows(delta, name, old_rows, new_rows);
        },
        (None, Some(Json::Array(new_rows))) => {
            lemma_collection_grows(delta, name, Seq::empty(), new_rows);
        },
        (Some(Json::Array(old_rows)), None) => {
            lemma_collection_grows(delta, name, old_rows, Seq::empty());
        },
        _ => {
            lemma_pushed(delta.added, name);
            lemma_pushed(delta.removed, name);
            if before is Some && after is Some {
                lemma_pushed(
                    delta.modified,
                    Edit { id: name, fields: diff::field_moves(before->0, after->0) },
                );
            }
        },
    }
}

proof fn lemma_members_grow(
    delta: Movement,
    names: Seq<Seq<char>>,
    before: Json,
    after: Json,
    i: int,
) -> (start: Movement)
    requires
        0 <= i < names.len(),
    ensures
        grows(
            with_member(start, names[i], before.get(names[i]), after.get(names[i])),
            with_members(delta, names, before, after),
        ),
    decreases names.len(),
{
    let front = names.drop_last();
    let held = with_members(delta, front, before, after);
    if i == names.len() - 1 {
        held
    } else {
        let start = lemma_members_grow(delta, front, before, after, i);
        lemma_member_grows(held, names.last(), before.get(names.last()), after.get(names.last()));
        let first = with_member(start, names[i], before.get(names[i]), after.get(names[i]));
        let last = with_members(delta, names, before, after);
        assert(grows(first, held));
        assert forall|id: Seq<char>| first.added.contains(id) implies #[trigger] last.added.contains(
            id,
        ) by {
            assert(held.added.contains(id));
        }
        assert forall|id: Seq<char>|
            first.removed.contains(id) implies #[trigger] last.removed.contains(id) by {
            assert(held.removed.contains(id));
        }
        assert forall|e: Edit| first.modified.contains(e) implies #[trigger] last.modified.contains(
            e,
        ) by {
            assert(held.modified.contains(e));
        }
        assert forall|n: Notice|
            first.highlights.contains(n) implies #[trigger] last.highlights.contains(n) by {
            assert(held.highlights.contains(n));
        }
        assert forall|d: Seq<char>| first.drift.contains(d) implies #[trigger] last.drift.contains(
            d,
        ) by {
            assert(held.drift.contains(d));
        }
        start
    }
}

/// The names of the members of two documents.
spec fn names_in(old_data: Json, new_data: Json) -> Seq<Seq<char>> {
    diff::sorted_names(
        table::keys(json::members_of(Some(old_data))) + table::keys(
            json::members_of(Some(new_data)),
        ),
    )
}

proof fn lemma_named_member(old_data: Json, new_data: Json, name: Seq<char>) -> (i: int)
    requires
        old_data.get(name) is Some || new_data.get(name) is Some,
    ensures
        0 <= i < names_in(old_data, new_data).len(),
        names_in(old_data, new_data)[i] == name,
{
    let a = json::members_of(Some(old_data));
    let b = json::members_of(Some(new_data));
    let all = table::keys(a) + table::keys(b);
    diff::law_sorted_names_are_the_names(all);
    let j = table::lemma_lookup_index(a, name);
    let k = table::lemma_lookup_index(b, name);
    if old_data.get(name) is Some {
        assert(all[j] == name);
    } else {
        assert(all[a.len() + k] == name);
    }
    let names = names_in(old_data, new_data);
    assert(names.contains(name));
    choose|i: int| 0 <= i < names.len() && names[i] == name
}

/// A row stands under its collection's name and its own id.
pub proof fn law_rows_stand_under_their_id(name: Seq<char>, rows: Seq<Json>, i: int, id: Seq<char>)
    requires
        uniquely_keyed(rows),
    ensures
        0 <= i < rows.len() ==> table::lookup(
            keyed(name, rows),
            name + "/"@ + diff::rendered(rows[i].get("id"@)),
        ) == Some(rows[i]),
        table::lookup(keyed(name, rows), name + "/"@ + id) matches Some(row) ==> rows.contains(row)
            && diff::rendered(row.get("id"@)) == id,
{
    if 0 <= i < rows.len() {
        lemma_keyed_lookup(name, rows, i);
    }
    if table::lookup(keyed(name, rows), name + "/"@ + id) is Some {
        let k = lemma_keyed_source(name, rows, name + "/"@ + id);
        if row_id(rows[k]) != id {
            lemma_row_keys_differ(name, row_id(rows[k]), id);
        }
    }
}

/// A row that only the new collection has is added, one that only the old one has
/// is removed, and one that both have with contents that disagree is modified,
/// with how they differ; a material field that moved is highlighted.
pub proof fn law_every_row_is_compared(
    before: Json,
    after: Json,
    name: Seq<char>,
    old_rows: Seq<Json>,
    new_rows: Seq<Json>,
    key: Seq<char>,
)
    requires
        data_of(before).get(name) == Some(Json::Array(old_rows)),
        data_of(after).get(name) == Some(Json::Array(new_rows)),
        name != "ReuseMapping"@,
        uniquely_keyed(new_rows),
    ensures
        ({
            let old_row = table::lookup(keyed(name, old_rows), key);
            let new_row = table::lookup(keyed(name, new_rows), key);
            let found = movement(before, after);
            &&& old_row is None && new_row is Some ==> found.added.contains(key)
            &&& old_row is Some && new_row is None ==> found.removed.contains(key)
            &&& old_row is Some && new_row is Some && !json::agree(old_row->0, new_row->0)
                ==> found.modified.contains(
                (Edit { id: key, fields: diff::field_moves(old_row->0, new_row->0) }),
            )
            &&& !json::agree_optional(old_row, new_row) ==> found.changed
        }),
{
    let old_data = data_of(before);
    let new_data = data_of(after);
    let b = keyed(name, old_rows);
    let a = keyed(name, new_rows);
    let old_row = table::lookup(b, key);
    let new_row = table::lookup(a, key);
    let i = lemma_named_member(old_data, new_data, name);
    let names = names_in(old_data, new_data);
    let still = diff::still(sources::MARKETPLACE@);
    let start = lemma_members_grow(still, names, old_data, new_data, i);
    let one = with_member(start, name, old_data.get(name), new_data.get(name));
    let all = with_members(still, names, old_data, new_data);
    assert(grows(one, all));
    assert(one == diff::compared(start, b, a, material_fields(), "marketplace"@));
    lemma_keyed_ordered(name, old_rows);
    diff::law_absent_keys_are_exact(a, b, key);
    diff::law_absent_keys_are_exact(b, a, key);
    diff::law_edits_are_exact(b, a, key);
    lemma_more(start.added, diff::absent_keys(a, b));
    lemma_more(start.removed, diff::absent_keys(b, a));
    lemma_more(start.modified, diff::edited(b, a));
    let found = movement(before, after);
    if old_row is None && new_row is Some {
        assert(one.added.contains(key));
        assert(all.added.contains(key));
        assert(!all.quiet());
    } else if old_row is Some && new_row is None {
        assert(one.removed.contains(key));
        assert(all.removed.contains(key));
        assert(!all.quiet());
    } else if old_row is Some && new_row is Some && !json::agree(old_row->0, new_row->0) {
        let e = Edit { id: key, fields: diff::field_moves(old_row->0, new_row->0) };
        assert(one.modified.contains(e));
        assert(all.modified.contains(e));
        assert(!all.quiet());
    }
}

/// A row's status, authorization, impact level, readiness, assessment or assessor
/// that moved is highlighted with its old value and its new one.
pub proof fn law_material_fields_are_highlighted(
    before: Json,
    after: Json,
    name: Seq<char>,
    old_rows: Seq<Json>,
    new_rows: Seq<Json>,
    key: Seq<char>,
    field: Seq<char>,
    old_map: Seq<(Seq<char>, Json)>,
    new_map: Seq<(Seq<char>, Json)>,
)
    requires
        data_of(before).get(name) == Some(Json::Array(old_rows)),
        data_of(after).get(name) == Some(Json::Array(new_rows)),
        name != "ReuseMapping"@,
        uniquely_keyed(new_rows),
        table::lookup(keyed(name, old_rows), key) == Some(Json::Object(old_map)),
        table::lookup(keyed(name, new_rows), key) == Some(Json::Object(new_map)),
        table::ordered(old_map),
        table::ordered(new_map),
        field == "status"@ || field == "auth_type"@ || field == "auth_date"@ || field
            == "impact_level"@ || field == "impact_level_number"@ || field == "fedramp_ready"@
            || field == "fedramp_auth"@ || field == "ready_status"@ || field == "ready_date"@
            || field == "ip_jab_status"@ || field == "ip_prog_status"@ || field
            == "ip_agency_status"@ || field == "ip_pmo_status"@ || field == "annual_assessment"@
            || field == "independent_assessor"@,
        !json::agree_optional(table::lookup(old_map, field), table::lookup(new_map, field)),
    ensures
        movement(before, after).highlights.contains(
            (Notice {
                kind: "marketplace"@,
                id: key,
                field,
                from: diff::rendered(table::lookup(old_map, field)),
                to: diff::rendered(table::lookup(new_map, field)),
            }),
        ),
        movement(before, after).severity == Severity::Minor,
{
    let old_data = data_of(before);
    let new_data = data_of(after);
    let i = lemma_named_member(old_data, new_data, name);
    let names = names_in(old_data, new_data);
    let still = diff::still(sources::MARKETPLACE@);
    let start = lemma_members_grow(still, names, old_data, new_data, i);
    let one = with_member(start, name, old_data.get(name), new_data.get(name));
    let all = with_members(still, names, old_data, new_data);
    let b = keyed(name, old_rows);
    let a = keyed(name, new_rows);
    lemma_keyed_ordered(name, old_rows);
    let watched = material_fields();
    assert(watched[0] == "status"@ && watched[1] == "auth_type"@ && watched[2] == "auth_date"@
        && watched[3] == "impact_level"@ && watched[4] == "impact_level_number"@ && watched[5]
        == "fedramp_ready"@ && watched[6] == "fedramp_auth"@ && watched[7] == "ready_status"@
        && watched[8] == "ready_date"@ && watched[9] == "ip_jab_status"@ && watched[10]
        == "ip_prog_status"@ && watched[11] == "ip_agency_status"@ && watched[12]
        == "ip_pmo_status"@ && watched[13] == "annual_assessment"@ && watched[14]
        == "independent_assessor"@);
    assert(watched.contains(field));
    diff::lemma_watched(start, b, a, watched, "marketplace"@, key, field, old_map, new_map);
    let n = Notice {
        kind: "marketplace"@,
        id: key,
        field,
        from: diff::rendered(table::lookup(old_map, field)),
        to: diff::rendered(table::lookup(new_map, field)),
    };
    assert(one == diff::compared(start, b, a, watched, "marketplace"@));
    assert(one.highlights.contains(n));
    assert(all.highlights.contains(n));
    assert(all.highlights.len() > 0);
    law_every_row_is_compared(before, after, name, old_rows, new_rows, key);
    let fields = diff::field_moves(Json::Object(old_map), Json::Object(new_map));
    diff::law_field_moves_are_exact(old_map, new_map, field);
    diff::law_field_changes_mean_a_difference(old_map, new_map);
    assert(fields.contains((FieldMove { field, from: n.from, to: n.to })));
    assert(fields.len() > 0);
    assert(!all.quiet());
}

/// A member that is no collection is added, removed or modified as a whole.
pub proof fn law_other_members_are_compared_whole(before: Json, after: Json, name: Seq<char>)
    requires
        !(data_of(before).get(name) matches Some(v) && v is Array),
        !(data_of(after).get(name) matches Some(v) && v is Array),
    ensures
        ({
            let old_value = data_of(before).get(name);
            let new_value = data_of(after).get(name);
            let found = movement(before, after);
            &&& old_value is None && new_value is Some ==> found.added.contains(name)
            &&& old_value is Some && new_value is None ==> found.removed.contains(name)
            &&& old_value is Some && new_value is Some && !json::agree(old_value->0, new_value->0)
                ==> found.modified.contains(
                (Edit { id: name, fields: diff::field_moves(old_value->0, new_value->0) }),
            )
        }),
{
    let old_data = data_of(before);
    let new_data = data_of(after);
    if old_data.get(name) is Some || new_data.get(name) is Some {
        let i = lemma_named_member(old_data, new_data, name);
        let names = names_in(old_data, new_data);
        let still = diff::still(sources::MARKETPLACE@);
        let start = lemma_members_grow(still, names, old_data, new_data, i);
        let one = with_member(start, name, old_data.get(name), new_data.get(name));
        let all = with_members(still, names, old_data, new_data);
        lemma_pushed(start.added, name);
        lemma_pushed(start.removed, name);
        let e = Edit {
            id: name,
            fields: diff::field_moves(old_data.get(name)->0, new_data.get(name)->0),
        };
        lemma_pushed(start.modified, e);
        assert(old_data.get(name) is None ==> one.added.contains(name));
        assert(new_data.get(name) is None ==> one.removed.contains(name));
    }
}

/// A movement of the marketplace is minor exactly where a product came or went or
/// a material field moved, and routine where anything else did.
pub proof fn law_severity_is_by_what_moved(before: Json, after: Json)
    ensures
        ({
            let found = movement(before, after);
            let product = (exists|i: int|
                0 <= i < found.added.len() && text::begins(
                    #[trigger] found.added[i],
                    "Products/"@,
                )) || (exists|i: int|
                0 <= i < found.removed.len() && text::begins(
                    #[trigger] found.removed[i],
                    "Products/"@,
                ));
            &&& product ==> found.severity == Severity::Minor
            &&& found.severity == Severity::Minor ==> product || found.highlights.len() > 0
            &&& found.severity == Severity::Routine ==> !product && found.highlights.len() == 0
                && !found.quiet()
            &&& found.severity == Severity::Unchanged <==> found.quiet()
            &&& found.changed <==> !found.quiet()
            &&& found.source == "marketplace"@
        }),
{
    let old_data = data_of(before);
    let new_data = data_of(after);
    let names = names_in(old_data, new_data);
    let all = with_members(diff::still(sources::MARKETPLACE@), names, old_data, new_data);
    let found = movement(before, after);
    lemma_source_kept(diff::still(sources::MARKETPLACE@), names, old_data, new_data);
    assert(found.added == all.added && found.removed == all.removed && found.modified
        == all.modified && found.counts == all.counts && found.highlights == all.highlights);
    assert(found.quiet() == all.quiet());
}

proof fn lemma_source_kept(delta: Movement, names: Seq<Seq<char>>, before: Json, after: Json)
    ensures
        with_members(delta, names, before, after).source == delta.source,
    decreases names.len(),
{
    if names.len() > 0 {
        lemma_source_kept(delta, names.drop_last(), before, after);
    }
}

proof fn lemma_count_keys(a: Seq<char>, b: Seq<char>)
    ensures
        a != b ==> a + ".rows_added"@ != b + ".rows_added"@,
        a != b ==> a + ".rows_removed"@ != b + ".rows_removed"@,
        a + ".rows_added"@ != b + ".rows_removed"@,
{
    reveal_strlit(".rows_added");
    reveal_strlit(".rows_removed");
    let x = a + ".rows_added"@;
    let y = b + ".rows_added"@;
    let u = a + ".rows_removed"@;
    let v = b + ".rows_removed"@;
    assert(".rows_added"@.len() == 11);
    assert(".rows_removed"@.len() == 13);
    assert(x.len() == a.len() + 11 && y.len() == b.len() + 11);
    assert(u.len() == a.len() + 13 && v.len() == b.len() + 13);
    if x == y {
        assert(a.len() == b.len());
        assert(a =~= x.take(a.len() as int));
        assert(b =~= y.take(b.len() as int));
    }
    if u == v {
        assert(a.len() == b.len());
        assert(a =~= u.take(a.len() as int));
        assert(b =~= v.take(b.len() as int));
    }
    assert(x[x.len() - 3] == 'd');
    assert(v[v.len() - 3] == 'v');
}

proof fn lemma_tally(
    delta: Movement,
    name: Seq<char>,
    old_rows: Seq<Json>,
    new_rows: Seq<Json>,
    key: Seq<char>,
)
    requires
        table::ordered(delta.counts),
    ensures
        ({
            let now = with_tally(delta, name, old_rows, new_rows);
            let added = unmatched(new_rows, old_rows);
            let removed = unmatched(old_rows, new_rows);
            &&& table::ordered(now.counts)
            &&& table::lookup(now.counts, key) == (if key == name + ".rows_removed"@ && removed
                > 0 {
                Some(removed as usize)
            } else if key == name + ".rows_added"@ && added > 0 {
                Some(added as usize)
            } else {
                table::lookup(delta.counts, key)
            })
        }),
{
    let added = unmatched(new_rows, old_rows);
    let removed = unmatched(old_rows, new_rows);
    let put = table::put(delta.counts, name + ".rows_added"@, added as usize);
    table::lemma_put_ordered(delta.counts, name + ".rows_added"@, added as usize);
    table::lemma_put_lookup(delta.counts, name + ".rows_added"@, added as usize, key);
    let counts = if added > 0 {
        put
    } else {
        delta.counts
    };
    table::lemma_put_ordered(counts, name + ".rows_removed"@, removed as usize);
    table::lemma_put_lookup(counts, name + ".rows_removed"@, removed as usize, key);
    lemma_count_keys(name, name);
}

/// Two movements count alike under a key.
spec fn count_alike(a: Movement, b: Movement, key: Seq<char>) -> bool {
    &&& table::ordered(a.counts)
    &&& table::ordered(b.counts)
    &&& table::lookup(a.counts, key) == table::lookup(b.counts, key)
}

proof fn lemma_member_counts(
    delta: Movement,
    name: Seq<char>,
    before: Option<Json>,
    after: Option<Json>,
    key: Seq<char>,
)
    requires
        table::ordered(delta.counts),
    ensures
        table::ordered(with_member(delta, name, before, after).counts),
        key != name + ".rows_added"@ && key != name + ".rows_removed"@ ==> count_alike(
            delta,
            with_member(delta, name, before, after),
            key,
        ),
{
    match (before, after) {
        (Some(Json::Array(old_rows)), Some(Json::Array(new_rows))) => {
            lemma_collection_counts(delta, name, old_rows, new_rows, key);
        },
        (None, Some(Json::Array(new_rows))) => {
            lemma_collection_counts(delta, name, Seq::empty(), new_rows, key);
        },
        (Some(Json::Array(old_rows)), None) => {
            lemma_collection_counts(delta, name, old_rows, Seq::empty(), key);
        },
        _ => {},
    }
}

proof fn lemma_collection_counts(
    delta: Movement,
    name: Seq<char>,
    old_rows: Seq<Json>,
    new_rows: Seq<Json>,
    key: Seq<char>,
)
    requires
        table::ordered(delta.counts),
    ensures
        table::ordered(with_collection(delta, name, old_rows, new_rows).counts),
        key != name + ".rows_added"@ && key != name + ".rows_removed"@ ==> count_alike(
            delta,
            with_collection(delta, name, old_rows, new_rows),
            key,
        ),
{
    lemma_tally(delta, name, old_rows, new_rows, key);
    let noted = Movement {
        drift: delta.drift.push(
            "`"@ + name + "` rows are not uniquely keyed by id — compared as a multiset"@,
        ),
        ..delta
    };
    lemma_tally(noted, name, old_rows, new_rows, key);
}

proof fn lemma_last_counts(
    delta: Movement,
    names: Seq<Seq<char>>,
    before: Json,
    after: Json,
    key: Seq<char>,
)
    requires
        table::ordered(delta.counts),
        names.len() > 0,
        rising(names),
        key == names.last() + ".rows_added"@ || key == names.last() + ".rows_removed"@,
    ensures
        count_alike(delta, with_members(delta, names.drop_last(), before, after), key),
        table::ordered(with_members(delta, names, before, after).counts),
{
    let front = names.drop_last();
    let last = names[names.len() - 1];
    assert forall|j: int| 0 <= j < front.len() implies #[trigger] front[j] != last by {
        text::lemma_text_lt_irreflexive(last);
        assert(text::text_lt(names[j], names[names.len() - 1]));
    }
    lemma_members_uncounted(delta, front, before, after, last, key);
    lemma_member_counts(
        with_members(delta, front, before, after),
        last,
        before.get(last),
        after.get(last),
        key,
    );
}

/// Names that rise strictly.
spec fn rising(names: Seq<Seq<char>>) -> bool {
    forall|j: int, k: int|
        0 <= j < k < names.len() ==> text::text_lt(#[trigger] names[j], #[trigger] names[k])
}

proof fn lemma_members_counts(
    delta: Movement,
    names: Seq<Seq<char>>,
    before: Json,
    after: Json,
    i: int,
    key: Seq<char>,
) -> (start: Movement)
    requires
        table::ordered(delta.counts),
        0 <= i < names.len(),
        rising(names),
        key == names[i] + ".rows_added"@ || key == names[i] + ".rows_removed"@,
    ensures
        count_alike(delta, start, key),
        table::lookup(with_members(delta, names, before, after).counts, key) == table::lookup(
            with_member(start, names[i], before.get(names[i]), after.get(names[i])).counts,
            key,
        ),
        table::ordered(with_members(delta, names, before, after).counts),
    decreases names.len(),
{
    let front = names.drop_last();
    let last = names[names.len() - 1];
    let held = with_members(delta, front, before, after);
    if i == names.len() - 1 {
        lemma_last_counts(delta, names, before, after, key);
        held
    } else {
        assert(rising(front)) by {
            assert forall|j: int, k: int| 0 <= j < k < front.len() implies text::text_lt(
                #[trigger] front[j],
                #[trigger] front[k],
            ) by {
                assert(text::text_lt(names[j], names[k]));
            }
        }
        assert(front[i] == names[i]);
        let start = lemma_members_counts(delta, front, before, after, i, key);
        lemma_apart(names, i, key);
        lemma_member_counts(held, last, before.get(last), after.get(last), key);
        assert(with_members(delta, names, before, after) == with_member(
            held,
            last,
            before.get(last),
            after.get(last),
        ));
        start
    }
}

proof fn lemma_apart(names: Seq<Seq<char>>, i: int, key: Seq<char>)
    requires
        0 <= i < names.len() - 1,
        rising(names),
        key == names[i] + ".rows_added"@ || key == names[i] + ".rows_removed"@,
    ensures
        key != names.last() + ".rows_added"@,
        key != names.last() + ".rows_removed"@,
{
    let last = names[names.len() - 1];
    assert(text::text_lt(names[i], names[names.len() - 1]));
    text::lemma_text_lt_irreflexive(last);
    lemma_count_keys(names[i], last);
    lemma_count_keys(last, names[i]);
}

proof fn lemma_members_uncounted(
    delta: Movement,
    names: Seq<Seq<char>>,
    before: Json,
    after: Json,
    name: Seq<char>,
    key: Seq<char>,
)
    requires
        table::ordered(delta.counts),
        forall|j: int| 0 <= j < names.len() ==> #[trigger] names[j] != name,
        key == name + ".rows_added"@ || key == name + ".rows_removed"@,
    ensures
        count_alike(delta, with_members(delta, names, before, after), key),
    decreases names.len(),
{
    if names.len() > 0 {
        let front = names.drop_last();
        let last = names[names.len() - 1];
        assert forall|j: int| 0 <= j < front.len() implies #[trigger] front[j] != name by {
            assert(names[j] != name);
        }
        lemma_members_uncounted(delta, front, before, after, name, key);
        assert(last != name);
        lemma_count_keys(name, last);
        lemma_count_keys(last, name);
        lemma_member_counts(
            with_members(delta, front, before, after),
            last,
            before.get(last),
            after.get(last),
            key,
        );
    }
}

/// A collection without unique ids is compared row by row whatever their order:
/// counted under its own name are the rows that the new one has and the old one
/// does not match, and those that the old one has and the new one does not.
pub proof fn law_unkeyed_rows_are_counted(
    before: Json,
    after: Json,
    name: Seq<char>,
    old_rows: Seq<Json>,
    new_rows: Seq<Json>,
)
    requires
        data_of(before).get(name) == Some(Json::Array(old_rows)),
        data_of(after).get(name) == Some(Json::Array(new_rows)),
        name == "ReuseMapping"@ || !uniquely_keyed(new_rows),
    ensures
        ({
            let counts = movement(before, after).counts;
            let added = row_marks(new_rows).sub(row_marks(old_rows)).len();
            let removed = row_marks(old_rows).sub(row_marks(new_rows)).len();
            &&& table::lookup(counts, name + ".rows_added"@) == (if added > 0 {
                Some(added as usize)
            } else {
                None
            })
            &&& table::lookup(counts, name + ".rows_removed"@) == (if removed > 0 {
                Some(removed as usize)
            } else {
                None
            })
        }),
{
    let old_data = data_of(before);
    let new_data = data_of(after);
    let i = lemma_named_member(old_data, new_data, name);
    let names = names_in(old_data, new_data);
    diff::law_sorted_names_are_the_names(
        table::keys(json::members_of(Some(old_data))) + table::keys(
            json::members_of(Some(new_data)),
        ),
    );
    let still = diff::still(sources::MARKETPLACE@);
    let x = name + ".rows_added"@;
    let y = name + ".rows_removed"@;
    lemma_count_keys(name, name);
    let a = lemma_members_counts(still, names, old_data, new_data, i, x);
    let b = lemma_members_counts(still, names, old_data, new_data, i, y);
    let note = "`"@ + name + "` rows are not uniquely keyed by id — compared as a multiset"@;
    lemma_tally(a, name, old_rows, new_rows, x);
    lemma_tally(b, name, old_rows, new_rows, y);
    lemma_tally(Movement { drift: a.drift.push(note), ..a }, name, old_rows, new_rows, x);
    lemma_tally(Movement { drift: b.drift.push(note), ..b }, name, old_rows, new_rows, y);
}

/// Some row of a collection has this key, or the member itself does.
spec fn comes_from(data: Json, id: Seq<char>) -> bool {
    exists|name: Seq<char>| #[trigger] has_member(data, name, id)
}

spec fn has_member(data: Json, name: Seq<char>, id: Seq<char>) -> bool {
    match data.get(name) {
        Some(Json::Array(rows)) => id == name || has_row(rows, name, id),
        Some(_) => id == name,
        None => false,
    }
}

/// Some row of a collection has this key.
pub open spec fn has_row(rows: Seq<Json>, name: Seq<char>, id: Seq<char>) -> bool {
    exists|i: int| 0 <= i < rows.len() && #[trigger] row_key(name, rows[i]) == id
}

/// The key of a row: its collection's name and its own id.
pub open spec fn row_key(name: Seq<char>, row: Json) -> Seq<char> {
    name + "/"@ + diff::rendered(row.get("id"@))
}

proof fn lemma_row_from(data: Json, name: Seq<char>, rows: Seq<Json>, id: Seq<char>)
    requires
        data.get(name) == Some(Json::Array(rows)),
        table::lookup(keyed(name, rows), id) is Some,
    ensures
        comes_from(data, id),
{
    let i = lemma_keyed_source(name, rows, id);
    assert(row_key(name, rows[i]) == id);
    assert(has_member(data, name, id));
}

proof fn lemma_collection_from(
    delta: Movement,
    name: Seq<char>,
    old_rows: Seq<Json>,
    new_rows: Seq<Json>,
    id: Seq<char>,
)
    ensures
        with_collection(delta, name, old_rows, new_rows).added.contains(id)
            ==> delta.added.contains(id) || table::lookup(keyed(name, new_rows), id) is Some
            && table::lookup(keyed(name, old_rows), id) is None,
        with_collection(delta, name, old_rows, new_rows).removed.contains(id)
            ==> delta.removed.contains(id) || table::lookup(keyed(name, old_rows), id) is Some
            && table::lookup(keyed(name, new_rows), id) is None,
{
    let b = keyed(name, old_rows);
    let a = keyed(name, new_rows);
    lemma_more(delta.added, diff::absent_keys(a, b));
    lemma_more(delta.removed, diff::absent_keys(b, a));
    diff::law_absent_keys_are_exact(a, b, id);
    diff::law_absent_keys_are_exact(b, a, id);
    if with_collection(delta, name, old_rows, new_rows).added.contains(id) {
        if name != UNKEYED@ && uniquely_keyed(new_rows) {
            assert((delta.added + diff::absent_keys(a, b)).contains(id));
        }
    }
    if with_collection(delta, name, old_rows, new_rows).removed.contains(id) {
        if name != UNKEYED@ && uniquely_keyed(new_rows) {
            assert((delta.removed + diff::absent_keys(b, a)).contains(id));
        }
    }
}

proof fn lemma_member_from(
    delta: Movement,
    name: Seq<char>,
    old_data: Json,
    new_data: Json,
    id: Seq<char>,
)
    ensures
        ({
            let now = with_member(delta, name, old_data.get(name), new_data.get(name));
            &&& now.added.contains(id) ==> delta.added.contains(id) || comes_from(new_data, id)
            &&& now.removed.contains(id) ==> delta.removed.contains(id) || comes_from(old_data, id)
        }),
{
    let none = Seq::<Json>::empty();
    let now = with_member(delta, name, old_data.get(name), new_data.get(name));
    match (old_data.get(name), new_data.get(name)) {
        (Some(Json::Array(old_rows)), Some(Json::Array(new_rows))) => {
            lemma_collection_from(delta, name, old_rows, new_rows, id);
            if table::lookup(keyed(name, new_rows), id) is Some {
                lemma_row_from(new_data, name, new_rows, id);
            }
            if table::lookup(keyed(name, old_rows), id) is Some {
                lemma_row_from(old_data, name, old_rows, id);
            }
        },
        (None, Some(Json::Array(new_rows))) => {
            lemma_collection_from(delta, name, none, new_rows, id);
            assert(table::lookup(keyed(name, none), id) is None);
            if table::lookup(keyed(name, new_rows), id) is Some {
                lemma_row_from(new_data, name, new_rows, id);
            }
        },
        (Some(Json::Array(old_rows)), None) => {
            lemma_collection_from(delta, name, old_rows, none, id);
            assert(table::lookup(keyed(name, none), id) is None);
            if table::lookup(keyed(name, old_rows), id) is Some {
                lemma_row_from(old_data, name, old_rows, id);
            }
        },
        _ => {
            lemma_pushed(delta.added, name);
            lemma_pushed(delta.removed, name);
            if now.added.contains(id) && !delta.added.contains(id) {
                assert(has_member(new_data, name, id));
            }
            if now.removed.contains(id) && !delta.removed.contains(id) {
                assert(has_member(old_data, name, id));
            }
        },
    }
}

proof fn lemma_members_from(
    delta: Movement,
    names: Seq<Seq<char>>,
    old_data: Json,
    new_data: Json,
    id: Seq<char>,
)
    ensures
        ({
            let now = with_members(delta, names, old_data, new_data);
            &&& now.added.contains(id) ==> delta.added.contains(id) || comes_from(new_data, id)
            &&& now.removed.contains(id) ==> delta.removed.contains(id) || comes_from(old_data, id)
        }),
    decreases names.len(),
{
    if names.len() > 0 {
        let front = names.drop_last();
        lemma_members_from(delta, front, old_data, new_data, id);
        lemma_member_from(
            with_members(delta, front, old_data, new_data),
            names.last(),
            old_data,
            new_data,
            id,
        );
    }
}

/// Whatever is added is in the new data, and whatever is removed was in the old.
pub proof fn law_added_is_new_and_removed_is_old(before: Json, after: Json, id: Seq<char>)
    ensures
        movement(before, after).added.contains(id) ==> exists|name: Seq<char>|
            #![trigger data_of(after).get(name)]
            data_of(after).get(name) is Some && (id == name || (data_of(after).get(name) matches Some(
                Json::Array(rows),
            ) && has_row(rows, name, id))),
        movement(before, after).removed.contains(id) ==> exists|name: Seq<char>|
            #![trigger data_of(before).get(name)]
            data_of(before).get(name) is Some && (id == name || (data_of(before).get(
                name,
            ) matches Some(Json::Array(rows)) && has_row(rows, name, id))),
{
    let old_data = data_of(before);
    let new_data = data_of(after);
    let still = diff::still(sources::MARKETPLACE@);
    lemma_members_from(still, names_in(old_data, new_data), old_data, new_data, id);
    if movement(before, after).added.contains(id) {
        let name = choose|name: Seq<char>| #[trigger] has_member(new_data, name, id);
        assert(new_data.get(name) is Some);
    }
    if movement(before, after).removed.contains(id) {
        let name = choose|name: Seq<char>| #[trigger] has_member(old_data, name, id);
        assert(old_data.get(name) is Some);
    }
}

/// The data of a snapshot is its `data` member where it has one.
pub proof fn law_data_is_the_data_member(doc: Json)
    ensures
        doc.get("data"@) matches Some(data) ==> data_of(doc) == data,
        doc.get("data"@) is None ==> data_of(doc) == doc,
{
}

/// Rows are keyed by their ids where each has one and no two have the same.
pub proof fn law_ids_key_rows_where_unique(rows: Seq<Json>, i: int, j: int)
    ensures
        uniquely_keyed(rows) && 0 <= i < rows.len() ==> diff::rendered(rows[i].get("id"@))
            != "(absent)"@,
        uniquely_keyed(rows) && 0 <= i < j < rows.len() ==> diff::rendered(rows[i].get("id"@))
            != diff::rendered(rows[j].get("id"@)),
        0 <= i < rows.len() && rows[i].get("id"@) is None ==> !uniquely_keyed(rows),
        rows.len() == 0 ==> uniquely_keyed(rows),
{
    if 0 <= i < rows.len() {
        assert(row_id(rows[i]) == diff::rendered(rows[i].get("id"@)));
        if 0 <= j < rows.len() {
            assert(row_id(rows[j]) == diff::rendered(rows[j].get("id"@)));
        }
    }
}

/// A row is told from others by the digest of its own document.
pub proof fn law_rows_are_told_by_their_digest(row: Json)
    ensures
        canon::document_digest(row) matches Ok(digest) ==> row_mark(row) == digest,
{
}

} // verus!
