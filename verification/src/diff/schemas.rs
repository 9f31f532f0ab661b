//! Schema diff: keyed by filename, with JSON-pointer level detail.
//!
//! The package schemas are versioned by filename (`…-2026-06-24.json`), so a
//! new revision shows up as an add plus a remove.

use vstd::prelude::*;

use crate::diff;
use crate::diff::{Delta, Edit, FieldChange, FieldMove, Highlight, Modified, Movement, Notice};
use crate::json;
use crate::json::{Doc, Json};
use crate::severity::Severity;
use crate::sources;
use crate::table;
use crate::table::Table;
use crate::text;

verus! {

pub const MAX_POINTERS_PER_FILE: usize = 40;

/// Whether a pointer runs through a segment that changes what a submitted
/// package must contain.
pub open spec fn binding(field: Seq<char>) -> bool {
    let segments = text::split(field, '/');
    ||| segments.contains("required"@)
    ||| segments.contains("properties"@)
    ||| segments.contains("enum"@)
    ||| segments.contains("type"@)
}

/// One entry per differing JSON pointer, descending only while both sides
/// remain objects.
pub open spec fn walked(pointer: Seq<char>, old_value: Json, new_value: Json) -> Seq<FieldMove>
    decreases old_value, 0nat,
{
    if json::agree(old_value, new_value) {
        Seq::empty()
    } else {
        match (old_value, new_value) {
            (Json::Object(old_map), Json::Object(new_map)) => walked_all(
                pointer,
                diff::sorted_names(table::keys(old_map) + table::keys(new_map)),
                old_map,
                new_map,
            ),
            _ => seq![
                FieldMove {
                    field: if pointer == ""@ {
                        "/"@
                    } else {
                        pointer
                    },
                    from: diff::rendered(Some(old_value)),
                    to: diff::rendered(Some(new_value)),
                },
            ],
        }
    }
}

pub open spec fn walked_all(
    pointer: Seq<char>,
    names: Seq<Seq<char>>,
    old_map: Seq<(Seq<char>, Json)>,
    new_map: Seq<(Seq<char>, Json)>,
) -> Seq<FieldMove>
    decreases old_map, names.len(),
    via walked_all_decreases
{
    if names.len() == 0 {
        Seq::empty()
    } else {
        let rest = walked_all(pointer, names.drop_last(), old_map, new_map);
        let key = names.last();
        let child = pointer + "/"@ + key;
        match (table::lookup(old_map, key), table::lookup(new_map, key)) {
            (Some(a), Some(b)) => rest + walked(child, a, b),
            (a, b) => rest.push(
                FieldMove { field: child, from: diff::rendered(a), to: diff::rendered(b) },
            ),
        }
    }
}

#[via_fn]
proof fn walked_all_decreases(
    pointer: Seq<char>,
    names: Seq<Seq<char>>,
    old_map: Seq<(Seq<char>, Json)>,
    new_map: Seq<(Seq<char>, Json)>,
) {
    if names.len() > 0 {
        json::lemma_lookup_smaller(old_map, names.last());
    }
}

fn walk(pointer: &str, old_value: &Doc, new_value: &Doc, out: &mut Vec<FieldChange>)
    ensures
        diff::moves(final(out)@) == diff::moves(old(out)@) + walked(
            pointer@,
            old_value@,
            new_value@,
        ),
    decreases old_value@,
{
    let ghost start = diff::moves(out@);
    if old_value.same(new_value) {
        assert(start + Seq::<FieldMove>::empty() =~= start);
        return;
    }
    match (old_value, new_value) {
        (Doc::Object(old_map), Doc::Object(new_map)) => {
            let names = diff::all_keys(old_value, new_value);
            let ghost all = table::keys(names@);
            let ghost b = old_map.members();
            let ghost a = new_map.members();
            let mut i: usize = 0;
            assert(start + walked_all(pointer@, all.take(0), b, a) =~= start);
            while i < names.len()
                invariant
                    i <= names@.len(),
                    all == table::keys(names@),
                    b == old_map.members(),
                    a == new_map.members(),
                    old_value@ == Json::Object(b),
                    diff::moves(out@) == start + walked_all(pointer@, all.take(i as int), b, a),
                decreases names@.len() - i,
            {
                let key = names.key(i);
                let ghost done = walked_all(pointer@, all.take(i as int), b, a);
                let mut child = pointer.to_owned();
                child.push_str("/");
                child.push_str(key);
                let from = old_map.member(key);
                let to = new_map.member(key);
                proof {
                    assert(all.take(i + 1).drop_last() =~= all.take(i as int));
                    assert(all.take(i + 1).last() == key@);
                    json::lemma_lookup_smaller(b, key@);
                    assert(decreases_to!(old_value@ => old_value@->Object_0));
                }
                match (from, to) {
                    (Some(x), Some(y)) => {
                        walk(child.as_str(), x, y, out);
                        assert(start + (done + walked(child@, x@, y@)) =~= start + done + walked(
                            child@,
                            x@,
                            y@,
                        ));
                    },
                    _ => {
                        let change = FieldChange {
                            field: child,
                            from: diff::render(from),
                            to: diff::render(to),
                        };
                        proof {
                            assert(diff::moves(out@.push(change)) =~= diff::moves(out@).push(
                                change@,
                            ));
                            assert(start + done.push(change@) =~= (start + done).push(change@));
                        }
                        out.push(change);
                    },
                }
                i += 1;
            }
            assert(all.take(all.len() as int) =~= all);
        },
        _ => {
            let change = FieldChange {
                field: if text::same_text(pointer, "") {
                    "/".to_owned()
                } else {
                    pointer.to_owned()
                },
                from: diff::render(Some(old_value)),
                to: diff::render(Some(new_value)),
            };
            assert(diff::moves(out@.push(change)) =~= start + seq![change@]);
            out.push(change);
        },
    }
}

pub open spec fn schema_notices(name: Seq<char>, fields: Seq<FieldMove>) -> Seq<Notice>
    decreases fields.len(),
{
    if fields.len() == 0 {
        Seq::empty()
    } else {
        let rest = schema_notices(name, fields.drop_last());
        let f = fields.last();
        if binding(f.field) {
            rest.push(
                Notice { kind: "schema"@, id: name, field: f.field, from: f.from, to: f.to },
            )
        } else {
            rest
        }
    }
}

/// A schema file was revised in place.
pub open spec fn with_file(delta: Movement, name: Seq<char>, before: Json, after: Json) -> Movement {
    let all = walked(""@, before, after);
    let long = all.len() > MAX_POINTERS_PER_FILE;
    let fields = if long {
        all.take(MAX_POINTERS_PER_FILE as int)
    } else {
        all
    };
    Movement {
        drift: if long {
            delta.drift.push(
                name + ": "@ + text::decimal(all.len()) + " pointer changes, reporting the first "@
                    + text::decimal(MAX_POINTERS_PER_FILE as nat),
            )
        } else {
            delta.drift
        },
        highlights: delta.highlights + schema_notices(name, fields),
        modified: delta.modified.push(Edit { id: name, fields }),
        ..delta
    }
}

pub open spec fn with_files(
    delta: Movement,
    before: Seq<(Seq<char>, Json)>,
    after: Seq<(Seq<char>, Json)>,
) -> Movement
    decreases before.len(),
{
    if before.len() == 0 {
        delta
    } else {
        let rest = with_files(delta, before.drop_last(), after);
        let (name, old_file) = before.last();
        match table::lookup(after, name) {
            Some(new_file) => if json::agree(old_file, new_file) {
                rest
            } else {
                with_file(rest, name, old_file, new_file)
            },
            None => rest,
        }
    }
}

/// What moved between two sets of schema files.
pub open spec fn movement(before: Json, after: Json) -> Movement {
    let old_files = json::members_of(Some(before));
    let new_files = json::members_of(Some(after));
    let found = with_files(
        Movement {
            added: diff::absent_keys(new_files, old_files),
            removed: diff::absent_keys(old_files, new_files),
            ..diff::still(sources::SCHEMAS@)
        },
        old_files,
        new_files,
    );
    Movement {
        changed: !found.quiet(),
        severity: if found.quiet() {
            Severity::Unchanged
        } else {
            Severity::Major
        },
        ..found
    }
}

fn is_binding(field: &str) -> (yes: bool)
    ensures
        yes == binding(field@),
{
    let segments = text::split_text(field, '/');
    text::is_among("required", &segments) || text::is_among("properties", &segments)
        || text::is_among("enum", &segments) || text::is_among("type", &segments)
}

fn highlight_pointers(name: &str, fields: &Vec<FieldChange>, highlights: &mut Vec<Highlight>)
    ensures
        diff::notices(final(highlights)@) == diff::notices(old(highlights)@) + schema_notices(
            name@,
            diff::moves(fields@),
        ),
{
    let ghost start = diff::notices(highlights@);
    let ghost all = diff::moves(fields@);
    let mut i: usize = 0;
    assert(start + schema_notices(name@, all.take(0)) =~= start);
    while i < fields.len()
        invariant
            i <= fields@.len(),
            all == diff::moves(fields@),
            diff::notices(highlights@) == start + schema_notices(name@, all.take(i as int)),
        decreases fields@.len() - i,
    {
        let change = &fields[i];
        let ghost done = schema_notices(name@, all.take(i as int));
        proof {
            assert(all.take(i + 1).drop_last() =~= all.take(i as int));
            assert(all.take(i + 1).last() == change@);
        }
        if is_binding(change.field.as_str()) {
            let highlight = Highlight {
                kind: "schema".to_owned(),
                id: name.to_owned(),
                field: change.field.clone(),
                from: change.from.clone(),
                to: change.to.clone(),
            };
            proof {
                assert(diff::notices(highlights@.push(highlight)) =~= diff::notices(
                    highlights@,
                ).push(highlight@));
                assert(start + done.push(highlight@) =~= (start + done).push(highlight@));
            }
            highlights.push(highlight);
        }
        i += 1;
    }
    assert(all.take(all.len() as int) =~= all);
}

fn revise_file(delta: &mut Delta, name: &str, before: &Doc, after: &Doc)
    ensures
        final(delta)@ == with_file(old(delta)@, name@, before@, after@),
{
    let mut pointers: Vec<FieldChange> = Vec::new();
    assert(diff::moves(pointers@) =~= Seq::<FieldMove>::empty());
    walk("", before, after, &mut pointers);
    let ghost all = diff::moves(pointers@);
    assert(all =~= walked(""@, before@, after@));
    if pointers.len() > MAX_POINTERS_PER_FILE {
        let mut line = name.to_owned();
        line.push_str(": ");
        line.push_str(text::decimal_text(pointers.len() as u64).as_str());
        line.push_str(" pointer changes, reporting the first ");
        line.push_str(text::decimal_text(MAX_POINTERS_PER_FILE as u64).as_str());
        proof {
            text::lemma_texts_push(delta.drift@, line);
        }
        delta.drift.push(line);
        pointers.truncate(MAX_POINTERS_PER_FILE);
        assert(diff::moves(pointers@) =~= all.take(MAX_POINTERS_PER_FILE as int));
    }
    highlight_pointers(name, &pointers, &mut delta.highlights);
    let entry = Modified { id: name.to_owned(), fields: pointers };
    assert(diff::edits(delta.modified@.push(entry)) =~= diff::edits(delta.modified@).push(entry@));
    delta.modified.push(entry);
}

pub fn diff(before: &Doc, after: &Doc) -> (delta: Delta)
    ensures
        delta@ == movement(before@, after@),
{
    broadcast use json::lemma_members;

    let mut delta = Delta::new(sources::SCHEMAS);
    let empty: Table<Doc> = Table::new();
    assert(empty.members() =~= Seq::<(Seq<char>, Json)>::empty());
    let old_files = match before.as_object() {
        Some(files) => files,
        None => &empty,
    };
    let new_files = match after.as_object() {
        Some(files) => files,
        None => &empty,
    };
    delta.added = diff::missing_keys(new_files, old_files);
    delta.removed = diff::missing_keys(old_files, new_files);
    let ghost start = delta@;
    let ghost b = old_files.members();
    let ghost a = new_files.members();
    let mut i: usize = 0;
    while i < old_files.len()
        invariant
            i <= old_files@.len(),
            b == old_files.members(),
            a == new_files.members(),
            b == json::deep(old_files@),
            delta@ == with_files(start, b.take(i as int), a),
        decreases old_files@.len() - i,
    {
        let name = old_files.key(i);
        let old_file = old_files.value(i);
        proof {
            assert(b.take(i + 1).drop_last() =~= b.take(i as int));
            assert(b.take(i + 1).last() == (name@, old_file@));
        }
        match new_files.member(name) {
            Some(new_file) => {
                if !old_file.same(new_file) {
                    revise_file(&mut delta, name, old_file, new_file);
                }
            },
            None => {},
        }
        i += 1;
    }
    assert(b.take(b.len() as int) =~= b);
    delta.changed = !delta.is_empty();
    delta.severity = if delta.changed {
        Severity::Major
    } else {
        Severity::Unchanged
    };
    delta
}

// Laws.

proof fn lemma_same_files(delta: Movement, m: Seq<(Seq<char>, Json)>, n: int)
    requires
        table::ordered(m),
        0 <= n <= m.len(),
    ensures
        with_files(delta, m.take(n), m) == delta,
    decreases n,
{
    if n > 0 {
        lemma_same_files(delta, m, n - 1);
        json::lemma_agree_self(m[n - 1].1);
        table::lemma_lookup_entry(m, n - 1);
        assert(m.take(n).drop_last() =~= m.take(n - 1));
    }
}

/// Schema files diffed against themselves have not changed.
pub proof fn law_same_files_are_unchanged(files: Json)
    requires
        table::ordered(json::members_of(Some(files))),
    ensures
        movement(files, files) == diff::still(sources::SCHEMAS@),
{
    let m = json::members_of(Some(files));
    diff::law_same_maps_compare_equal(
        diff::still(sources::SCHEMAS@),
        m,
        Seq::empty(),
        ""@,
    );
    let none = Seq::<Seq<char>>::empty();
    assert(none + diff::absent_keys(m, m) =~= diff::absent_keys(m, m));
    lemma_same_files(diff::still(sources::SCHEMAS@), m, m.len() as int);
    assert(m.take(m.len() as int) =~= m);
}

/// Any movement of the schemas is major.
pub proof fn law_any_change_is_major(before: Json, after: Json)
    ensures
        movement(before, after).changed <==> movement(before, after).severity == Severity::Major,
        !movement(before, after).changed <==> movement(before, after).severity
            == Severity::Unchanged,
{
}

// What is reported of a schema file.

/// A value that is not an object on both sides and that disagrees is one move at
/// its own pointer, from the old value to the new one.
pub proof fn law_plain_value_moves_at_its_pointer(
    pointer: Seq<char>,
    old_value: Json,
    new_value: Json,
)
    requires
        !json::agree(old_value, new_value),
        !(old_value is Object && new_value is Object),
    ensures
        walked(pointer, old_value, new_value).len() == 1,
        pointer.len() > 0 ==> walked(pointer, old_value, new_value)[0].field == pointer,
        pointer.len() == 0 ==> walked(pointer, old_value, new_value)[0].field == "/"@,
        walked(pointer, old_value, new_value)[0].from == diff::rendered(Some(old_value)),
        walked(pointer, old_value, new_value)[0].to == diff::rendered(Some(new_value)),
{
    reveal_strlit("");
    if pointer.len() == 0 {
        assert(pointer =~= ""@);
    }
}

proof fn lemma_walked_child(
    pointer: Seq<char>,
    names: Seq<Seq<char>>,
    old_map: Seq<(Seq<char>, Json)>,
    new_map: Seq<(Seq<char>, Json)>,
    key: Seq<char>,
    f: FieldMove,
)
    requires
        names.contains(key),
        match (table::lookup(old_map, key), table::lookup(new_map, key)) {
            (Some(a), Some(b)) => walked(pointer + "/"@ + key, a, b).contains(f),
            (a, b) => f == (FieldMove {
                field: pointer + "/"@ + key,
                from: diff::rendered(a),
                to: diff::rendered(b),
            }),
        },
    ensures
        walked_all(pointer, names, old_map, new_map).contains(f),
    decreases names.len(),
{
    let front = names.drop_last();
    let rest = walked_all(pointer, front, old_map, new_map);
    let now = walked_all(pointer, names, old_map, new_map);
    if names.last() == key {
        match (table::lookup(old_map, key), table::lookup(new_map, key)) {
            (Some(a), Some(b)) => {
                let more = walked(pointer + "/"@ + key, a, b);
                let k = choose|k: int| 0 <= k < more.len() && more[k] == f;
                assert(now == rest + more);
                assert(now[rest.len() + k] == f);
            },
            _ => {
                assert(now[now.len() - 1] == f);
            },
        }
    } else {
        let i = choose|i: int| 0 <= i < names.len() && names[i] == key;
        assert(front[i] == key);
        lemma_walked_child(pointer, front, old_map, new_map, key, f);
        let k = choose|k: int| 0 <= k < rest.len() && rest[k] == f;
        assert(now[k] == f);
    }
}

/// Of two objects that disagree, a member that only one has is a move at its own
/// pointer, and whatever moved inside a member that both have is reported too.
pub proof fn law_walk_reaches_every_member(
    pointer: Seq<char>,
    old_map: Seq<(Seq<char>, Json)>,
    new_map: Seq<(Seq<char>, Json)>,
    key: Seq<char>,
    f: FieldMove,
)
    requires
        !json::agree(Json::Object(old_map), Json::Object(new_map)),
    ensures
        table::lookup(old_map, key) is Some && table::lookup(new_map, key) is None ==> walked(
            pointer,
            Json::Object(old_map),
            Json::Object(new_map),
        ).contains(
            (FieldMove {
                field: pointer + "/"@ + key,
                from: diff::rendered(table::lookup(old_map, key)),
                to: "(absent)"@,
            }),
        ),
        table::lookup(old_map, key) is None && table::lookup(new_map, key) is Some ==> walked(
            pointer,
            Json::Object(old_map),
            Json::Object(new_map),
        ).contains(
            (FieldMove {
                field: pointer + "/"@ + key,
                from: "(absent)"@,
                to: diff::rendered(table::lookup(new_map, key)),
            }),
        ),
        table::lookup(old_map, key) matches Some(a) ==> (table::lookup(new_map, key) matches Some(b)
            ==> (walked(pointer + "/"@ + key, a, b).contains(f) ==> walked(
            pointer,
            Json::Object(old_map),
            Json::Object(new_map),
        ).contains(f))),
{
    let all = table::keys(old_map) + table::keys(new_map);
    let names = diff::sorted_names(all);
    diff::law_sorted_names_are_the_names(all);
    let a = table::lookup(old_map, key);
    let b = table::lookup(new_map, key);
    let i = table::lemma_lookup_index(old_map, key);
    let j = table::lemma_lookup_index(new_map, key);
    if a is Some {
        assert(all[i] == key);
        assert(names.contains(key));
    } else if b is Some {
        assert(all[old_map.len() + j] == key);
        assert(names.contains(key));
    }
    if a is Some && b is Some {
        if walked(pointer + "/"@ + key, a->0, b->0).contains(f) {
            lemma_walked_child(pointer, names, old_map, new_map, key, f);
        }
    } else if a is Some || b is Some {
        let g = FieldMove {
            field: pointer + "/"@ + key,
            from: diff::rendered(a),
            to: diff::rendered(b),
        };
        lemma_walked_child(pointer, names, old_map, new_map, key, g);
    }
}

/// Documents that agree have no moves.
pub proof fn law_agreeing_values_do_not_move(pointer: Seq<char>, a: Json, b: Json)
    requires
        json::agree(a, b),
    ensures
        walked(pointer, a, b).len() == 0,
{
}

/// A pointer binds where it leads through what a schema demands: what is required,
/// the properties, the values allowed or the type.
pub proof fn law_binding_pointers_name_a_demand(field: Seq<char>)
    ensures
        binding(field) <==> exists|i: int|
            0 <= i < text::split(field, '/').len() && ((#[trigger] text::split(field, '/')[i])
                == "required"@ || text::split(field, '/')[i] == "properties"@ || text::split(
                field,
                '/',
            )[i] == "enum"@ || text::split(field, '/')[i] == "type"@),
{
    let s = text::split(field, '/');
    if s.contains("required"@) {
        let i = choose|i: int| 0 <= i < s.len() && s[i] == "required"@;
        assert(s[i] == "required"@);
    }
    if s.contains("properties"@) {
        let i = choose|i: int| 0 <= i < s.len() && s[i] == "properties"@;
        assert(s[i] == "properties"@);
    }
    if s.contains("enum"@) {
        let i = choose|i: int| 0 <= i < s.len() && s[i] == "enum"@;
        assert(s[i] == "enum"@);
    }
    if s.contains("type"@) {
        let i = choose|i: int| 0 <= i < s.len() && s[i] == "type"@;
        assert(s[i] == "type"@);
    }
}

/// The moves of a file that are highlighted are exactly its binding ones, each
/// with the file's name and its values as moved.
pub proof fn law_binding_moves_are_highlighted(name: Seq<char>, fields: Seq<FieldMove>, n: Notice)
    ensures
        schema_notices(name, fields).contains(n) <==> n.kind == "schema"@ && n.id == name
            && binding(n.field) && fields.contains(
            (FieldMove { field: n.field, from: n.from, to: n.to }),
        ),
    decreases fields.len(),
{
    let f = FieldMove { field: n.field, from: n.from, to: n.to };
    if fields.len() > 0 {
        let front = fields.drop_last();
        law_binding_moves_are_highlighted(name, front, n);
        let rest = schema_notices(name, front);
        let now = schema_notices(name, fields);
        if rest.contains(n) {
            let k = choose|k: int| 0 <= k < rest.len() && rest[k] == n;
            assert(now[k] == n);
            let i = choose|i: int| 0 <= i < front.len() && front[i] == f;
            assert(fields[i] == f);
        }
        if now.contains(n) {
            let k = choose|k: int| 0 <= k < now.len() && now[k] == n;
            if k < rest.len() {
                assert(rest[k] == n);
            } else {
                assert(fields[fields.len() - 1] == f);
            }
        }
        if n.kind == "schema"@ && n.id == name && binding(n.field) && fields.contains(f) {
            let i = choose|i: int| 0 <= i < fields.len() && fields[i] == f;
            if i < front.len() {
                assert(front[i] == f);
            } else {
                assert(now[now.len() - 1] == n);
            }
        }
    }
}

/// What is reported of the moves within a file: all of them, or the first ones
/// where they are many.
pub open spec fn reported(old_file: Json, new_file: Json) -> Seq<FieldMove> {
    let all = walked(Seq::empty(), old_file, new_file);
    if all.len() > MAX_POINTERS_PER_FILE {
        all.take(MAX_POINTERS_PER_FILE as int)
    } else {
        all
    }
}

proof fn lemma_files(
    delta: Movement,
    before: Seq<(Seq<char>, Json)>,
    after: Seq<(Seq<char>, Json)>,
    name: Seq<char>,
)
    requires
        table::ordered(before),
        delta.modified.len() == 0,
    ensures
        ({
            let found = with_files(delta, before, after);
            let old_file = table::lookup(before, name);
            let new_file = table::lookup(after, name);
            let moved = old_file is Some && new_file is Some && !json::agree(
                old_file->0,
                new_file->0,
            );
            &&& found.added == delta.added
            &&& found.removed == delta.removed
            &&& found.counts == delta.counts
            &&& found.source == delta.source
            &&& moved ==> found.modified.contains(
                (Edit { id: name, fields: reported(old_file->0, new_file->0) }),
            )
            &&& forall|k: int|
                0 <= k < found.modified.len() && (#[trigger] found.modified[k]).id == name ==> moved
                    && found.modified[k].fields == reported(old_file->0, new_file->0)
            &&& moved ==> forall|n: Notice|
                schema_notices(name, reported(old_file->0, new_file->0)).contains(n)
                    ==> #[trigger] found.highlights.contains(n)
        }),
    decreases before.len(),
{
    reveal_strlit("");
    assert(""@ =~= Seq::<char>::empty());
    if before.len() > 0 {
        let front = before.drop_last();
        let last = before[before.len() - 1];
        assert(table::ordered(front)) by {
            assert forall|i: int, j: int| 0 <= i < j < front.len() implies text::text_lt(
                #[trigger] front[i].0,
                #[trigger] front[j].0,
            ) by {
                assert(text::text_lt(before[i].0, before[j].0));
            }
        }
        lemma_files(delta, front, after, name);
        table::lemma_lookup_entry(before, before.len() - 1);
        let i = table::lemma_lookup_index(before, name);
        let j = table::lemma_lookup_index(front, name);
        let rest = with_files(delta, front, after);
        let found = with_files(delta, before, after);
        if last.0 == name {
            if table::lookup(front, name) is Some {
                text::lemma_text_lt_irreflexive(name);
                assert(text::text_lt(before[j].0, before[before.len() - 1].0));
            }
        } else {
            if table::lookup(before, name) is Some {
                assert(front[i].0 == name);
                table::lemma_lookup_entry(front, i);
            }
            if table::lookup(front, name) is Some {
                assert(before[j].0 == name);
                table::lemma_lookup_entry(before, j);
            }
            assert(table::lookup(front, name) == table::lookup(before, name));
        }
        let old_file = table::lookup(before, name);
        let new_file = table::lookup(after, name);
        let moved = old_file is Some && new_file is Some && !json::agree(old_file->0, new_file->0);
        let e = Edit { id: name, fields: reported(old_file->0, new_file->0) };
        if found != rest {
            let new_last = table::lookup(after, last.0)->0;
            let fields = reported(last.1, new_last);
            assert(found.modified == rest.modified.push(Edit { id: last.0, fields }));
            assert(found.highlights == rest.highlights + schema_notices(last.0, fields));
            if moved {
                if last.0 == name {
                    assert(found.modified[found.modified.len() - 1] == e);
                } else {
                    let k = choose|k: int| 0 <= k < rest.modified.len() && rest.modified[k] == e;
                    assert(found.modified[k] == e);
                }
                let own = schema_notices(name, reported(old_file->0, new_file->0));
                assert forall|n: Notice| own.contains(
                    n,
                ) implies #[trigger] found.highlights.contains(n) by {
                    if last.0 == name {
                        let k = choose|k: int| 0 <= k < own.len() && own[k] == n;
                        assert(found.highlights[rest.highlights.len() + k] == n);
                    } else {
                        assert(rest.highlights.contains(n));
                        let k = choose|k: int|
                            0 <= k < rest.highlights.len() && rest.highlights[k] == n;
                        assert(found.highlights[k] == n);
                    }
                }
            }
            assert forall|k: int|
                0 <= k < found.modified.len() && (#[trigger] found.modified[k]).id
                    == name implies moved && found.modified[k].fields == reported(
                old_file->0,
                new_file->0,
            ) by {
                if k < rest.modified.len() {
                    assert(rest.modified[k] == found.modified[k]);
                }
            }
        }
    }
}

/// What moved among the schema files is, file by file, what one set has and the
/// other lacks and what both have with contents that disagree, each with the
/// moves inside it; its binding moves are highlighted.
pub proof fn law_every_file_is_compared(before: Json, after: Json, name: Seq<char>)
    requires
        table::ordered(json::members_of(Some(before))),
    ensures
        ({
            let old_file = table::lookup(json::members_of(Some(before)), name);
            let new_file = table::lookup(json::members_of(Some(after)), name);
            let found = movement(before, after);
            &&& found.added.contains(name) <==> old_file is None && new_file is Some
            &&& found.removed.contains(name) <==> old_file is Some && new_file is None
            &&& (exists|k: int|
                0 <= k < found.modified.len() && (#[trigger] found.modified[k]).id == name) <==> (
            old_file is Some && new_file is Some && !json::agree(old_file->0, new_file->0))
            &&& forall|k: int|
                0 <= k < found.modified.len() && (#[trigger] found.modified[k]).id == name
                    ==> found.modified[k].fields == reported(old_file->0, new_file->0)
            &&& old_file is Some && new_file is Some && !json::agree(old_file->0, new_file->0)
                ==> forall|n: Notice|
                schema_notices(name, reported(old_file->0, new_file->0)).contains(n)
                    ==> #[trigger] found.highlights.contains(n)
            &&& found.source == "schemas"@
        }),
{
    let a = json::members_of(Some(before));
    let b = json::members_of(Some(after));
    let start = Movement {
        added: diff::absent_keys(b, a),
        removed: diff::absent_keys(a, b),
        ..diff::still(sources::SCHEMAS@)
    };
    lemma_files(start, a, b, name);
    diff::law_absent_keys_are_exact(a, b, name);
    diff::law_absent_keys_are_exact(b, a, name);
    let files = with_files(start, a, b);
    let found = movement(before, after);
    assert(found.modified == files.modified);
    let old_file = table::lookup(a, name);
    let new_file = table::lookup(b, name);
    if old_file is Some && new_file is Some && !json::agree(old_file->0, new_file->0) {
        let e = Edit { id: name, fields: reported(old_file->0, new_file->0) };
        let k = choose|k: int| 0 <= k < found.modified.len() && found.modified[k] == e;
        assert(found.modified[k].id == name);
    }
}

/// Where more moved within a file than is reported, a note says how much.
pub proof fn law_cut_moves_are_noted(delta: Movement, name: Seq<char>, before: Json, after: Json)
    ensures
        ({
            let all = walked(Seq::empty(), before, after);
            let now = with_file(delta, name, before, after);
            &&& all.len() > MAX_POINTERS_PER_FILE ==> now.drift.len() == delta.drift.len() + 1
                && text::begins(
                now.drift.last(),
                name + ": "@ + text::decimal(all.len()) + " pointer changes"@,
            )
            &&& all.len() <= MAX_POINTERS_PER_FILE ==> now.drift == delta.drift
        }),
{
    reveal_strlit("");
    assert(""@ =~= Seq::<char>::empty());
    let all = walked(Seq::empty(), before, after);
    if all.len() > MAX_POINTERS_PER_FILE {
        reveal_strlit(" pointer changes");
        reveal_strlit(" pointer changes, reporting the first ");
        let n = text::decimal(all.len());
        let note = name + ": "@ + n + " pointer changes, reporting the first "@ + text::decimal(
            MAX_POINTERS_PER_FILE as nat,
        );
        let part = name + ": "@ + n + " pointer changes"@;
        assert(note.subrange(0, part.len() as int) =~= part);
    }
}

} // verus!
