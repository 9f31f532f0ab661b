//! Semantic diffs. A byte-level diff is useless here: upstream rewrites the
//! marketplace file every day and reformats the rules file at will.

pub mod kev;
pub mod marketplace;
pub mod oscal;
pub mod rules;
pub mod schemas;

use vstd::prelude::*;

use crate::json;
use crate::json::{Doc, Json};
use crate::outside;
use crate::severity::Severity;
use crate::table;
use crate::table::Table;
use crate::text;

verus! {

#[derive(Debug, Clone, PartialEq, Eq)]
pub struct FieldChange {
    pub field: String,
    pub from: String,
    pub to: String,
}

#[derive(Debug, Clone, PartialEq, Eq)]
pub struct Modified {
    pub id: String,
    pub fields: Vec<FieldChange>,
}

/// A change worth putting in the title of a report rather than the appendix.
#[derive(Debug, Clone, PartialEq, Eq)]
pub struct Highlight {
    pub kind: String,
    pub id: String,
    pub field: String,
    pub from: String,
    pub to: String,
}

#[derive(Debug)]
pub struct Delta {
    pub source: String,
    pub changed: bool,
    pub severity: Severity,
    pub added: Vec<String>,
    pub removed: Vec<String>,
    pub modified: Vec<Modified>,
    pub highlights: Vec<Highlight>,
    /// Upstream structural surprises: a new top-level section, a collection
    /// that stopped being keyed. Surfaced rather than silently absorbed.
    pub drift: Vec<String>,
    pub counts: Table<usize>,
}

/// What a field change says.
pub struct FieldMove {
    pub field: Seq<char>,
    pub from: Seq<char>,
    pub to: Seq<char>,
}

pub struct Edit {
    pub id: Seq<char>,
    pub fields: Seq<FieldMove>,
}

pub struct Notice {
    pub kind: Seq<char>,
    pub id: Seq<char>,
    pub field: Seq<char>,
    pub from: Seq<char>,
    pub to: Seq<char>,
}

/// What a delta says.
pub struct Movement {
    pub source: Seq<char>,
    pub changed: bool,
    pub severity: Severity,
    pub added: Seq<Seq<char>>,
    pub removed: Seq<Seq<char>>,
    pub modified: Seq<Edit>,
    pub highlights: Seq<Notice>,
    pub drift: Seq<Seq<char>>,
    pub counts: Seq<(Seq<char>, usize)>,
}

impl View for FieldChange {
    type V = FieldMove;

    open spec fn view(&self) -> FieldMove {
        FieldMove { field: self.field@, from: self.from@, to: self.to@ }
    }
}

pub open spec fn moves(changes: Seq<FieldChange>) -> Seq<FieldMove> {
    changes.map_values(|c: FieldChange| c@)
}

impl View for Modified {
    type V = Edit;

    open spec fn view(&self) -> Edit {
        Edit { id: self.id@, fields: moves(self.fields@) }
    }
}

pub open spec fn edits(modified: Seq<Modified>) -> Seq<Edit> {
    modified.map_values(|m: Modified| m@)
}

impl View for Highlight {
    type V = Notice;

    open spec fn view(&self) -> Notice {
        Notice {
            kind: self.kind@,
            id: self.id@,
            field: self.field@,
            from: self.from@,
            to: self.to@,
        }
    }
}

pub open spec fn notices(highlights: Seq<Highlight>) -> Seq<Notice> {
    highlights.map_values(|h: Highlight| h@)
}

impl View for Delta {
    type V = Movement;

    open spec fn view(&self) -> Movement {
        Movement {
            source: self.source@,
            changed: self.changed,
            severity: self.severity,
            added: text::texts(self.added@),
            removed: text::texts(self.removed@),
            modified: edits(self.modified@),
            highlights: notices(self.highlights@),
            drift: text::texts(self.drift@),
            counts: self.counts@,
        }
    }
}

impl Movement {
    /// Nothing was added, removed or modified, and every count is zero.
    pub open spec fn quiet(self) -> bool {
        &&& self.added.len() == 0
        &&& self.removed.len() == 0
        &&& self.modified.len() == 0
        &&& forall|i: int| 0 <= i < self.counts.len() ==> (#[trigger] self.counts[i]).1 == 0
    }
}

/// Nothing has moved in `source`.
pub open spec fn still(source: Seq<char>) -> Movement {
    Movement {
        source,
        changed: false,
        severity: Severity::Unchanged,
        added: Seq::empty(),
        removed: Seq::empty(),
        modified: Seq::empty(),
        highlights: Seq::empty(),
        drift: Seq::empty(),
        counts: Seq::empty(),
    }
}

impl Delta {
    pub fn new(source: &str) -> (delta: Delta)
        ensures
            delta@ == still(source@),
    {
        let delta = Delta {
            source: source.to_owned(),
            changed: false,
            severity: Severity::Unchanged,
            added: Vec::new(),
            removed: Vec::new(),
            modified: Vec::new(),
            highlights: Vec::new(),
            drift: Vec::new(),
            counts: Table::new(),
        };
        assert(delta@.added =~= Seq::<Seq<char>>::empty());
        assert(delta@.removed =~= Seq::<Seq<char>>::empty());
        assert(delta@.modified =~= Seq::<Edit>::empty());
        assert(delta@.highlights =~= Seq::<Notice>::empty());
        assert(delta@.drift =~= Seq::<Seq<char>>::empty());
        delta
    }

    pub fn is_empty(&self) -> (empty: bool)
        ensures
            empty == self@.quiet(),
    {
        if self.added.len() > 0 || self.removed.len() > 0 || self.modified.len() > 0 {
            return false;
        }
        let mut i: usize = 0;
        while i < self.counts.len()
            invariant
                i <= self.counts@.len(),
                forall|j: int| 0 <= j < i ==> (#[trigger] self.counts@[j]).1 == 0,
            decreases self.counts@.len() - i,
        {
            if *self.counts.value(i) != 0 {
                assert(self@.counts[i as int].1 != 0);
                return false;
            }
            i += 1;
        }
        true
    }

    pub fn total(&self) -> (n: usize)
        requires
            self@.added.len() + self@.removed.len() + self@.modified.len() <= usize::MAX,
        ensures
            n == self@.added.len() + self@.removed.len() + self@.modified.len(),
    {
        self.added.len() + self.removed.len() + self.modified.len()
    }
}

// Names in order.

/// The names in order, each once.
pub open spec fn name_set(names: Seq<Seq<char>>) -> Seq<(Seq<char>, ())>
    decreases names.len(),
{
    if names.len() == 0 {
        Seq::empty()
    } else {
        table::put(name_set(names.drop_last()), names.last(), ())
    }
}

pub proof fn lemma_name_set_ordered(names: Seq<Seq<char>>)
    ensures
        table::ordered(name_set(names)),
    decreases names.len(),
{
    if names.len() > 0 {
        lemma_name_set_ordered(names.drop_last());
        table::lemma_put_ordered(name_set(names.drop_last()), names.last(), ());
    }
}

pub open spec fn sorted_names(names: Seq<Seq<char>>) -> Seq<Seq<char>> {
    table::keys(name_set(names))
}

/// Adds every key of `table` to `names`.
fn collect_keys(table: &Table<Doc>, names: &mut Table<()>, Ghost(before): Ghost<Seq<Seq<char>>>)
    requires
        old(names)@ == name_set(before),
    ensures
        final(names)@ == name_set(before + table::keys(table.members())),
{
    broadcast use json::lemma_members;

    let mut i: usize = 0;
    let ghost all = table::keys(table.members());
    assert(before + all.take(0) =~= before);
    while i < table.len()
        invariant
            i <= table@.len(),
            all == table::keys(table.members()),
            table.members() == json::deep(table@),
            names@ == name_set(before + all.take(i as int)),
        decreases table@.len() - i,
    {
        names.insert(table.key(i).to_owned(), ());
        proof {
            let now = before + all.take(i + 1);
            assert(now.drop_last() =~= before + all.take(i as int));
            assert(now.last() == table@[i as int].0);
        }
        i += 1;
    }
    assert(all.take(all.len() as int) =~= all);
}

/// Appends copies of some texts.
pub fn add_texts(more: &Vec<String>, ids: &mut Vec<String>)
    ensures
        text::texts(final(ids)@) == text::texts(old(ids)@) + text::texts(more@),
{
    let ghost start = text::texts(ids@);
    let ghost all = text::texts(more@);
    let mut i: usize = 0;
    assert(start + all.take(0) =~= start);
    while i < more.len()
        invariant
            i <= more@.len(),
            all == text::texts(more@),
            text::texts(ids@) == start + all.take(i as int),
        decreases more@.len() - i,
    {
        let id = more[i].clone();
        proof {
            text::lemma_texts_push(ids@, id);
            assert(all[i as int] == id@);
            assert(start + all.take(i + 1) =~= (start + all.take(i as int)).push(id@));
        }
        ids.push(id);
        i += 1;
    }
    assert(all.take(all.len() as int) =~= all);
}

/// The names in order, each once.
pub fn name_table(list: &Vec<String>) -> (names: Table<()>)
    ensures
        names@ == name_set(text::texts(list@)),
{
    let mut names: Table<()> = Table::new();
    let ghost all = text::texts(list@);
    let mut i: usize = 0;
    while i < list.len()
        invariant
            i <= list@.len(),
            all == text::texts(list@),
            names@ == name_set(all.take(i as int)),
        decreases list@.len() - i,
    {
        proof {
            assert(all.take(i + 1).drop_last() =~= all.take(i as int));
            assert(all.take(i + 1).last() == list@[i as int]@);
        }
        names.insert(list[i].clone(), ());
        i += 1;
    }
    assert(all.take(all.len() as int) =~= all);
    names
}

pub fn key_list(names: &Table<()>) -> (list: Vec<String>)
    ensures
        text::texts(list@) == table::keys(names@),
{
    let mut list: Vec<String> = Vec::new();
    let mut i: usize = 0;
    while i < names.len()
        invariant
            i <= names@.len(),
            list@.len() == i,
            forall|j: int| 0 <= j < i ==> (#[trigger] list@[j])@ == names@[j].0,
        decreases names@.len() - i,
    {
        list.push(names.key(i).to_owned());
        i += 1;
    }
    assert(text::texts(list@) =~= table::keys(names@));
    list
}

/// The keys of two documents in order, each once; what is no object has none.
pub fn all_keys(a: &Doc, b: &Doc) -> (names: Table<()>)
    ensures
        table::keys(names@) == sorted_names(
            table::keys(json::members_of(Some(a@))) + table::keys(json::members_of(Some(b@))),
        ),
{
    let mut names: Table<()> = Table::new();
    let ghost none = Seq::<Seq<char>>::empty();
    let ghost a_keys = table::keys(json::members_of(Some(a@)));
    let ghost b_keys = table::keys(json::members_of(Some(b@)));
    assert(none + a_keys =~= a_keys);
    assert(a_keys.len() == 0 ==> a_keys =~= none);
    match json::members_in(Some(a)) {
        Some(members) => {
            collect_keys(members, &mut names, Ghost(none));
        },
        None => {},
    }
    assert(names@ == name_set(a_keys));
    assert(b_keys.len() == 0 ==> a_keys + b_keys =~= a_keys);
    match json::members_in(Some(b)) {
        Some(members) => {
            collect_keys(members, &mut names, Ghost(a_keys));
        },
        None => {},
    }
    names
}

// Field-level changes.

pub const RENDER_LIMIT: usize = 160;

/// Compact one-line rendering, truncated so a report stays readable.
pub open spec fn rendered(v: Option<Json>) -> Seq<char> {
    match v {
        None => "(absent)"@,
        Some(v) => {
            let flat = text::collapsed(
                match v {
                    Json::Text(s) => s,
                    other => outside::json_text(other),
                },
            );
            if flat.len() <= RENDER_LIMIT {
                flat
            } else {
                flat.take(RENDER_LIMIT as int) + "…"@
            }
        },
    }
}

pub fn render(value: Option<&Doc>) -> (line: String)
    ensures
        line@ == rendered(json::opt_json(value)),
{
    match value {
        None => "(absent)".to_owned(),
        Some(value) => {
            let content = match value {
                Doc::Text(s) => s.clone(),
                other => outside::compact_text(other),
            };
            let flat = text::collapse(content.as_str());
            if flat.as_str().unicode_len() <= RENDER_LIMIT {
                return flat;
            }
            let mut head = flat.as_str().substring_char(0, RENDER_LIMIT).to_owned();
            head.push_str("…");
            head
        },
    }
}

/// The keys of both maps whose values differ, with both values rendered.
pub open spec fn moved_fields(
    names: Seq<Seq<char>>,
    old_map: Seq<(Seq<char>, Json)>,
    new_map: Seq<(Seq<char>, Json)>,
) -> Seq<FieldMove>
    decreases names.len(),
{
    if names.len() == 0 {
        Seq::empty()
    } else {
        let rest = moved_fields(names.drop_last(), old_map, new_map);
        let key = names.last();
        let from = table::lookup(old_map, key);
        let to = table::lookup(new_map, key);
        if json::agree_optional(from, to) {
            rest
        } else {
            rest.push(FieldMove { field: key, from: rendered(from), to: rendered(to) })
        }
    }
}

/// Field-level changes between two values. Non-objects are reported as a
/// single synthetic `value` field so scalars still diff cleanly.
pub open spec fn field_moves(old_value: Json, new_value: Json) -> Seq<FieldMove> {
    match (old_value, new_value) {
        (Json::Object(old_map), Json::Object(new_map)) => moved_fields(
            sorted_names(table::keys(old_map) + table::keys(new_map)),
            old_map,
            new_map,
        ),
        _ => seq![
            FieldMove {
                field: "value"@,
                from: rendered(Some(old_value)),
                to: rendered(Some(new_value)),
            },
        ],
    }
}

pub fn field_changes(old_value: &Doc, new_value: &Doc) -> (changes: Vec<FieldChange>)
    ensures
        moves(changes@) == field_moves(old_value@, new_value@),
{
    let mut changes: Vec<FieldChange> = Vec::new();
    match (old_value, new_value) {
        (Doc::Object(old_map), Doc::Object(new_map)) => {
            let names = all_keys(old_value, new_value);
            let ghost all = table::keys(names@);
            let mut i: usize = 0;
            assert(moves(changes@) =~= moved_fields(all.take(0), old_map.members(), new_map.members()));
            while i < names.len()
                invariant
                    i <= names@.len(),
                    all == table::keys(names@),
                    moves(changes@) == moved_fields(
                        all.take(i as int),
                        old_map.members(),
                        new_map.members(),
                    ),
                decreases names@.len() - i,
            {
                let key = names.key(i);
                let from = old_map.member(key);
                let to = new_map.member(key);
                proof {
                    assert(all.take(i + 1).drop_last() =~= all.take(i as int));
                    assert(all.take(i + 1).last() == key@);
                }
                if !json::same_optional(from, to) {
                    let change = FieldChange {
                        field: key.to_owned(),
                        from: render(from),
                        to: render(to),
                    };
                    proof {
                        assert(moves(changes@.push(change)) =~= moves(changes@).push(change@));
                    }
                    changes.push(change);
                }
                i += 1;
            }
            assert(all.take(all.len() as int) =~= all);
        },
        _ => {
            let change = FieldChange {
                field: "value".to_owned(),
                from: render(Some(old_value)),
                to: render(Some(new_value)),
            };
            proof {
                assert(moves(changes@.push(change)) =~= seq![change@]);
            }
            changes.push(change);
        },
    }
    changes
}

// Comparing maps.

/// The keys of `a` that `b` lacks, in order.
pub open spec fn absent_keys<V>(a: Seq<(Seq<char>, V)>, b: Seq<(Seq<char>, V)>) -> Seq<Seq<char>>
    decreases a.len(),
{
    if a.len() == 0 {
        Seq::empty()
    } else {
        let rest = absent_keys(a.drop_last(), b);
        if table::lookup(b, a.last().0) is None {
            rest.push(a.last().0)
        } else {
            rest
        }
    }
}

/// The entries of both maps whose values differ, in order.
pub open spec fn edited(
    before: Seq<(Seq<char>, Json)>,
    after: Seq<(Seq<char>, Json)>,
) -> Seq<Edit>
    decreases before.len(),
{
    if before.len() == 0 {
        Seq::empty()
    } else {
        let rest = edited(before.drop_last(), after);
        let (id, old_value) = before.last();
        match table::lookup(after, id) {
            Some(new_value) => if json::agree(old_value, new_value) {
                rest
            } else {
                rest.push(Edit { id, fields: field_moves(old_value, new_value) })
            },
            None => rest,
        }
    }
}

/// The field changes of one entry that are worth attention.
pub open spec fn promoted(
    id: Seq<char>,
    fields: Seq<FieldMove>,
    highlight_fields: Seq<Seq<char>>,
    kind: Seq<char>,
) -> Seq<Notice>
    decreases fields.len(),
{
    if fields.len() == 0 {
        Seq::empty()
    } else {
        let rest = promoted(id, fields.drop_last(), highlight_fields, kind);
        let f = fields.last();
        if highlight_fields.contains(f.field) {
            rest.push(Notice { kind, id, field: f.field, from: f.from, to: f.to })
        } else {
            rest
        }
    }
}

pub open spec fn promoted_all(
    entries: Seq<Edit>,
    highlight_fields: Seq<Seq<char>>,
    kind: Seq<char>,
) -> Seq<Notice>
    decreases entries.len(),
{
    if entries.len() == 0 {
        Seq::empty()
    } else {
        promoted_all(entries.drop_last(), highlight_fields, kind) + promoted(
            entries.last().id,
            entries.last().fields,
            highlight_fields,
            kind,
        )
    }
}

/// Compare two flattened maps and record adds, removes, and field-level edits.
pub open spec fn compared(
    delta: Movement,
    before: Seq<(Seq<char>, Json)>,
    after: Seq<(Seq<char>, Json)>,
    highlight_fields: Seq<Seq<char>>,
    kind: Seq<char>,
) -> Movement {
    Movement {
        added: delta.added + absent_keys(after, before),
        removed: delta.removed + absent_keys(before, after),
        modified: delta.modified + edited(before, after),
        highlights: delta.highlights + promoted_all(
            edited(before, after),
            highlight_fields,
            kind,
        ),
        ..delta
    }
}

/// The keys of `a` that `b` lacks, in order.
pub fn missing_keys(a: &Table<Doc>, b: &Table<Doc>) -> (names: Vec<String>)
    ensures
        text::texts(names@) == absent_keys(a.members(), b.members()),
{
    broadcast use json::lemma_members;

    let mut names: Vec<String> = Vec::new();
    let mut i: usize = 0;
    assert(text::texts(names@) =~= absent_keys(a.members().take(0), b.members()));
    while i < a.len()
        invariant
            i <= a@.len(),
            a.members() == json::deep(a@),
            text::texts(names@) == absent_keys(a.members().take(i as int), b.members()),
        decreases a@.len() - i,
    {
        let key = a.key(i);
        proof {
            assert(a.members().take(i + 1).drop_last() =~= a.members().take(i as int));
            assert(a.members().take(i + 1).last().0 == key@);
        }
        if b.member(key).is_none() {
            let name = key.to_owned();
            proof {
                text::lemma_texts_push(names@, name);
            }
            names.push(name);
        }
        i += 1;
    }
    assert(a.members().take(a.members().len() as int) =~= a.members());
    names
}

/// Whether `name` is among `names`.
pub fn among(names: &[&str], name: &str) -> (yes: bool)
    ensures
        yes == json::strs(names@).contains(name@),
{
    let mut i: usize = 0;
    while i < names.len()
        invariant
            i <= names@.len(),
            forall|j: int| 0 <= j < i ==> (#[trigger] names@[j])@ != name@,
        decreases names@.len() - i,
    {
        if text::same_text(names[i], name) {
            assert(json::strs(names@)[i as int] == name@);
            return true;
        }
        i += 1;
    }
    assert forall|j: int| 0 <= j < json::strs(names@).len() implies json::strs(names@)[j]
        != name@ by {
        assert(names@[j]@ != name@);
    }
    false
}

fn promote(
    id: &str,
    fields: &Vec<FieldChange>,
    highlights: &mut Vec<Highlight>,
    highlight_fields: &[&str],
    kind: &str,
)
    ensures
        notices(final(highlights)@) == notices(old(highlights)@) + promoted(
            id@,
            moves(fields@),
            json::strs(highlight_fields@),
            kind@,
        ),
{
    let ghost start = notices(highlights@);
    let ghost all = moves(fields@);
    let ghost wanted = json::strs(highlight_fields@);
    let mut i: usize = 0;
    assert(start + promoted(id@, all.take(0), wanted, kind@) =~= start);
    while i < fields.len()
        invariant
            i <= fields@.len(),
            all == moves(fields@),
            wanted == json::strs(highlight_fields@),
            notices(highlights@) == start + promoted(id@, all.take(i as int), wanted, kind@),
        decreases fields@.len() - i,
    {
        let change = &fields[i];
        proof {
            assert(all.take(i + 1).drop_last() =~= all.take(i as int));
            assert(all.take(i + 1).last() == change@);
        }
        if among(highlight_fields, change.field.as_str()) {
            let highlight = Highlight {
                kind: kind.to_owned(),
                id: id.to_owned(),
                field: change.field.clone(),
                from: change.from.clone(),
                to: change.to.clone(),
            };
            proof {
                let before = promoted(id@, all.take(i as int), wanted, kind@);
                assert(notices(highlights@.push(highlight)) =~= notices(highlights@).push(
                    highlight@,
                ));
                assert(start + before.push(highlight@) =~= (start + before).push(highlight@));
            }
            highlights.push(highlight);
        }
        i += 1;
    }
    assert(all.take(all.len() as int) =~= all);
}

/// Appends owned strings.
pub fn append_texts(into: &mut Vec<String>, more: Vec<String>)
    ensures
        text::texts(final(into)@) == text::texts(old(into)@) + text::texts(more@),
{
    let ghost tail = more@;
    let mut more = more;
    into.append(&mut more);
    assert(text::texts(into@) =~= text::texts(old(into)@) + text::texts(tail));
}

pub fn compare_maps(
    before: &Table<Doc>,
    after: &Table<Doc>,
    delta: &mut Delta,
    highlight_fields: &[&str],
    highlight_kind: &str,
)
    ensures
        final(delta)@ == compared(
            old(delta)@,
            before.members(),
            after.members(),
            json::strs(highlight_fields@),
            highlight_kind@,
        ),
{
    broadcast use json::lemma_members;

    let ghost start = delta@;
    let added = missing_keys(after, before);
    append_texts(&mut delta.added, added);
    let removed = missing_keys(before, after);
    append_texts(&mut delta.removed, removed);
    let ghost b = before.members();
    let ghost a = after.members();
    let ghost wanted = json::strs(highlight_fields@);
    let mut i: usize = 0;
    assert(start.modified + edited(b.take(0), a) =~= start.modified);
    assert(start.highlights + promoted_all(edited(b.take(0), a), wanted, highlight_kind@)
        =~= start.highlights);
    while i < before.len()
        invariant
            i <= before@.len(),
            b == before.members(),
            a == after.members(),
            b == json::deep(before@),
            wanted == json::strs(highlight_fields@),
            delta@ == (Movement {
                added: start.added + absent_keys(a, b),
                removed: start.removed + absent_keys(b, a),
                modified: start.modified + edited(b.take(i as int), a),
                highlights: start.highlights + promoted_all(
                    edited(b.take(i as int), a),
                    wanted,
                    highlight_kind@,
                ),
                ..start
            }),
        decreases before@.len() - i,
    {
        let id = before.key(i);
        let old_value = before.value(i);
        let ghost done = edited(b.take(i as int), a);
        proof {
            assert(b.take(i + 1).drop_last() =~= b.take(i as int));
            assert(b.take(i + 1).last() == (id@, old_value@));
        }
        match after.member(id) {
            Some(new_value) => {
                if !old_value.same(new_value) {
                    let fields = field_changes(old_value, new_value);
                    promote(id, &fields, &mut delta.highlights, highlight_fields, highlight_kind);
                    let entry = Modified { id: id.to_owned(), fields };
                    proof {
                        assert(edits(delta.modified@.push(entry)) =~= edits(delta.modified@).push(
                            entry@,
                        ));
                        assert(start.modified + done.push(entry@) =~= (start.modified + done).push(
                            entry@,
                        ));
                        assert(done.push(entry@).drop_last() =~= done);
                        let p = promoted_all(done, wanted, highlight_kind@);
                        let q = promoted(entry@.id, entry@.fields, wanted, highlight_kind@);
                        assert(start.highlights + (p + q) =~= start.highlights + p + q);
                    }
                    delta.modified.push(entry);
                }
            },
            None => {},
        }
        i += 1;
    }
    assert(b.take(b.len() as int) =~= b);
}

// Laws.

proof fn lemma_nothing_absent(m: Seq<(Seq<char>, Json)>, n: int)
    requires
        table::ordered(m),
        0 <= n <= m.len(),
    ensures
        absent_keys(m.take(n), m).len() == 0,
        edited(m.take(n), m).len() == 0,
    decreases n,
{
    if n > 0 {
        lemma_nothing_absent(m, n - 1);
        json::lemma_agree_self(m[n - 1].1);
        table::lemma_lookup_entry(m, n - 1);
        assert(m.take(n).drop_last() =~= m.take(n - 1));
    }
}

/// A map compared with itself adds, removes and modifies nothing.
pub proof fn law_same_maps_compare_equal(
    delta: Movement,
    m: Seq<(Seq<char>, Json)>,
    highlight_fields: Seq<Seq<char>>,
    kind: Seq<char>,
)
    requires
        table::ordered(m),
    ensures
        compared(delta, m, m, highlight_fields, kind) == delta,
{
    lemma_nothing_absent(m, m.len() as int);
    assert(m.take(m.len() as int) =~= m);
    assert(edited(m, m) =~= Seq::<Edit>::empty());
    assert(delta.added + absent_keys(m, m) =~= delta.added);
    assert(delta.removed + absent_keys(m, m) =~= delta.removed);
    assert(delta.modified + edited(m, m) =~= delta.modified);
    assert(delta.highlights + promoted_all(edited(m, m), highlight_fields, kind)
        =~= delta.highlights);
}

/// A key that only the newer map has is reported as added, and one that only
/// the older has as removed.
pub proof fn law_difference_is_reported(
    a: Seq<(Seq<char>, Json)>,
    b: Seq<(Seq<char>, Json)>,
    i: int,
)
    requires
        0 <= i < a.len(),
        table::lookup(b, a[i].0) is None,
    ensures
        absent_keys(a, b).contains(a[i].0),
    decreases a.len(),
{
    if i == a.len() - 1 {
        let list = absent_keys(a, b);
        assert(list.last() == a[i].0);
        assert(list[list.len() - 1] == a[i].0);
    } else {
        law_difference_is_reported(a.drop_last(), b, i);
        let rest = absent_keys(a.drop_last(), b);
        let k = choose|k: int| 0 <= k < rest.len() && rest[k] == a[i].0;
        assert(absent_keys(a, b)[k] == a[i].0);
    }
}

proof fn lemma_moved_nothing(
    names: Seq<Seq<char>>,
    old_map: Seq<(Seq<char>, Json)>,
    new_map: Seq<(Seq<char>, Json)>,
)
    ensures
        moved_fields(names, old_map, new_map).len() == 0 <==> forall|i: int|
            0 <= i < names.len() ==> json::agree_optional(
                table::lookup(old_map, #[trigger] names[i]),
                table::lookup(new_map, names[i]),
            ),
    decreases names.len(),
{
    if names.len() > 0 {
        let fewer = names.drop_last();
        lemma_moved_nothing(fewer, old_map, new_map);
        assert(names[names.len() - 1] == names.last());
        assert forall|i: int| 0 <= i < fewer.len() implies #[trigger] fewer[i] == names[i] by {}
        if moved_fields(names, old_map, new_map).len() == 0 {
            assert forall|i: int| 0 <= i < names.len() implies json::agree_optional(
                table::lookup(old_map, #[trigger] names[i]),
                table::lookup(new_map, names[i]),
            ) by {
                if i < fewer.len() {
                    assert(fewer[i] == names[i]);
                }
            }
        }
    }
}

proof fn lemma_name_is_sorted(names: Seq<Seq<char>>, i: int) -> (k: int)
    requires
        0 <= i < names.len(),
    ensures
        0 <= k < sorted_names(names).len(),
        sorted_names(names)[k] == names[i],
{
    lemma_name_is_set(names, i);
    table::lemma_lookup_index(name_set(names), names[i])
}

proof fn lemma_name_is_set(names: Seq<Seq<char>>, i: int)
    requires
        0 <= i < names.len(),
    ensures
        table::lookup(name_set(names), names[i]) is Some,
    decreases names.len(),
{
    let fewer = names.drop_last();
    lemma_name_set_ordered(fewer);
    table::lemma_put_lookup(name_set(fewer), names.last(), (), names[i]);
    if i < fewer.len() {
        lemma_name_is_set(fewer, i);
    }
}

proof fn lemma_lookups_agree(a: Seq<(Seq<char>, Json)>, b: Seq<(Seq<char>, Json)>)
    requires
        table::ordered(a),
        table::ordered(b),
    ensures
        json::agree(Json::Object(a), Json::Object(b)) <==> forall|key: Seq<char>|
            json::agree_optional(#[trigger] table::lookup(a, key), table::lookup(b, key)),
{
    if json::agree(Json::Object(a), Json::Object(b)) {
        assert forall|key: Seq<char>|
            json::agree_optional(#[trigger] table::lookup(a, key), table::lookup(b, key)) by {
            let i = table::lemma_lookup_index(a, key);
            assert forall|j: int| 0 <= j < i implies (#[trigger] b[j]).0 != key by {
                assert(a[j].0 != key);
            }
            table::lemma_lookup_at(b, key, i);
            if i < a.len() {
                assert(a[i].0 == b[i].0);
            }
        }
    }
    if forall|key: Seq<char>|
        json::agree_optional(#[trigger] table::lookup(a, key), table::lookup(b, key)) {
        let f = |v: Json| ();
        let x = table::mapped(a, f);
        let y = table::mapped(b, f);
        table::lemma_mapped_ordered(a, f);
        table::lemma_mapped_ordered(b, f);
        assert forall|key: Seq<char>| #[trigger] table::lookup(x, key) == table::lookup(y, key) by {
            table::lemma_mapped_lookup(a, key, f);
            table::lemma_mapped_lookup(b, key, f);
            assert(json::agree_optional(table::lookup(a, key), table::lookup(b, key)));
        }
        table::lemma_same_map(x, y);
        assert(a.len() == x.len() && b.len() == y.len());
        assert forall|i: int| #![trigger a[i]] 0 <= i < a.len() implies a[i].0 == b[i].0
            && json::agree(a[i].1, b[i].1) by {
            assert(x[i].0 == a[i].0 && y[i].0 == b[i].0);
            table::lemma_lookup_entry(a, i);
            table::lemma_lookup_entry(b, i);
        }
    }
}

/// Two objects have no field changes exactly where their fields are equal.
pub proof fn law_field_changes_mean_a_difference(
    old_map: Seq<(Seq<char>, Json)>,
    new_map: Seq<(Seq<char>, Json)>,
)
    requires
        table::ordered(old_map),
        table::ordered(new_map),
    ensures
        field_moves(Json::Object(old_map), Json::Object(new_map)).len() == 0 <==> json::agree(
            Json::Object(old_map),
            Json::Object(new_map),
        ),
{
    let given = table::keys(old_map) + table::keys(new_map);
    let names = sorted_names(given);
    lemma_moved_nothing(names, old_map, new_map);
    lemma_lookups_agree(old_map, new_map);
    if field_moves(Json::Object(old_map), Json::Object(new_map)).len() == 0 {
        assert forall|key: Seq<char>|
            json::agree_optional(
                #[trigger] table::lookup(old_map, key),
                table::lookup(new_map, key),
            ) by {
            let i = table::lemma_lookup_index(old_map, key);
            let j = table::lemma_lookup_index(new_map, key);
            if i < old_map.len() {
                assert(given[i] == key);
                let k = lemma_name_is_sorted(given, i);
                assert(names[k] == key);
            } else if j < new_map.len() {
                assert(given[old_map.len() + j] == key);
                let k = lemma_name_is_sorted(given, old_map.len() + j);
                assert(names[k] == key);
            }
        }
    }
}

// What a comparison reports, neither more nor less.

/// Sorting names keeps every one and adds none, each once and in order.
pub proof fn law_sorted_names_are_the_names(names: Seq<Seq<char>>)
    ensures
        forall|name: Seq<char>| #[trigger] sorted_names(names).contains(name) <==> names.contains(name),
        forall|i: int, j: int|
            0 <= i < j < sorted_names(names).len() ==> text::text_lt(
                #[trigger] sorted_names(names)[i],
                #[trigger] sorted_names(names)[j],
            ),
{
    lemma_name_set_ordered(names);
    let set = name_set(names);
    let sorted = sorted_names(names);
    assert forall|name: Seq<char>| #[trigger] sorted.contains(name) <==> names.contains(name) by {
        if names.contains(name) {
            let i = choose|i: int| 0 <= i < names.len() && names[i] == name;
            let k = lemma_name_is_sorted(names, i);
            assert(sorted[k] == name);
        }
        if sorted.contains(name) {
            let k = choose|k: int| 0 <= k < sorted.len() && sorted[k] == name;
            lemma_name_is_given(names, k);
        }
    }
    assert forall|i: int, j: int| 0 <= i < j < sorted.len() implies text::text_lt(
        #[trigger] sorted[i],
        #[trigger] sorted[j],
    ) by {
        assert(sorted[i] == set[i].0);
        assert(sorted[j] == set[j].0);
    }
}

proof fn lemma_name_is_given(names: Seq<Seq<char>>, k: int)
    requires
        0 <= k < name_set(names).len(),
    ensures
        names.contains(name_set(names)[k].0),
    decreases names.len(),
{
    let fewer = names.drop_last();
    table::lemma_put_keys(name_set(fewer), names.last(), ());
    let name = name_set(names)[k].0;
    if name == names.last() {
        assert(names[names.len() - 1] == name);
    } else {
        let j = choose|j: int| 0 <= j < name_set(fewer).len() && name_set(fewer)[j].0 == name;
        lemma_name_is_given(fewer, j);
        let i = choose|i: int| 0 <= i < fewer.len() && fewer[i] == name;
        assert(names[i] == name);
    }
}

/// What is reported as absent is exactly what one map has and the other lacks.
pub proof fn law_absent_keys_are_exact<V>(
    a: Seq<(Seq<char>, V)>,
    b: Seq<(Seq<char>, V)>,
    key: Seq<char>,
)
    ensures
        absent_keys(a, b).contains(key) <==> table::lookup(a, key) is Some && table::lookup(
            b,
            key,
        ) is None,
    decreases a.len(),
{
    let i = table::lemma_lookup_index(a, key);
    if a.len() > 0 {
        let front = a.drop_last();
        law_absent_keys_are_exact(front, b, key);
        let j = table::lemma_lookup_index(front, key);
        let rest = absent_keys(front, b);
        let now = absent_keys(a, b);
        if table::lookup(front, key) is Some {
            assert(a[j].0 == key);
        }
        if table::lookup(a, key) is Some && i < front.len() {
            assert(front[i].0 == key);
        }
        if rest.contains(key) {
            let k = choose|k: int| 0 <= k < rest.len() && rest[k] == key;
            assert(now[k] == key);
        }
        if a.last().0 == key {
            assert(a[a.len() - 1].0 == key);
            if table::lookup(b, key) is None {
                assert(now[now.len() - 1] == key);
            }
        }
        if now.contains(key) {
            let k = choose|k: int| 0 <= k < now.len() && now[k] == key;
            if k < rest.len() {
                assert(rest[k] == key);
            }
        }
    }
}

/// As many keys are reported absent as the one map has and the other lacks: none
/// is said twice.
pub proof fn law_absent_keys_are_said_once<V>(a: Seq<(Seq<char>, V)>, b: Seq<(Seq<char>, V)>)
    requires
        table::ordered(a),
    ensures
        forall|i: int, j: int|
            0 <= i < j < absent_keys(a, b).len() ==> text::text_lt(
                #[trigger] absent_keys(a, b)[i],
                #[trigger] absent_keys(a, b)[j],
            ),
    decreases a.len(),
{
    if a.len() > 0 {
        let front = a.drop_last();
        assert(table::ordered(front)) by {
            assert forall|i: int, j: int| 0 <= i < j < front.len() implies text::text_lt(
                #[trigger] front[i].0,
                #[trigger] front[j].0,
            ) by {
                assert(text::text_lt(a[i].0, a[j].0));
            }
        }
        law_absent_keys_are_said_once(front, b);
        let rest = absent_keys(front, b);
        let now = absent_keys(a, b);
        assert forall|i: int, j: int| 0 <= i < j < now.len() implies text::text_lt(
            #[trigger] now[i],
            #[trigger] now[j],
        ) by {
            assert(now[i] == rest[i]);
            if j == rest.len() {
                assert(rest.contains(rest[i]));
                law_absent_keys_are_exact(front, b, rest[i]);
                let k = table::lemma_lookup_index(front, rest[i]);
                assert(text::text_lt(a[k].0, a[a.len() - 1].0));
            } else {
                assert(now[j] == rest[j]);
            }
        }
    }
}

/// An entry is reported as edited exactly where both maps have it with values
/// that disagree, and what is said of it is how those two values differ.
pub proof fn law_edits_are_exact(
    before: Seq<(Seq<char>, Json)>,
    after: Seq<(Seq<char>, Json)>,
    id: Seq<char>,
)
    requires
        table::ordered(before),
    ensures
        forall|k: int|
            0 <= k < edited(before, after).len() && (#[trigger] edited(before, after)[k]).id == id
                ==> {
                &&& table::lookup(before, id) is Some
                &&& table::lookup(after, id) is Some
                &&& !json::agree(table::lookup(before, id)->0, table::lookup(after, id)->0)
                &&& edited(before, after)[k].fields == field_moves(
                    table::lookup(before, id)->0,
                    table::lookup(after, id)->0,
                )
            },
        table::lookup(before, id) is Some && table::lookup(after, id) is Some && !json::agree(
            table::lookup(before, id)->0,
            table::lookup(after, id)->0,
        ) ==> edited(before, after).contains(
            (Edit {
                id,
                fields: field_moves(
                    table::lookup(before, id)->0,
                    table::lookup(after, id)->0,
                ),
            }),
        ),
    decreases before.len(),
{
    if before.len() > 0 {
        let front = before.drop_last();
        let last = before[before.len() - 1];
        assert(table::ordered(front)) by {
            assert forall|i: int, j: int| 0 <= i < j < front.len() implies text::text_lt(
                #[trigger] front[i].0,
                #[trigger] front[j].0,
            ) by {
                assert(text::text_lt(before[i].0, before[j].0));
            }
        }
        law_edits_are_exact(front, after, id);
        table::lemma_lookup_entry(before, before.len() - 1);
        let i = table::lemma_lookup_index(before, id);
        let j = table::lemma_lookup_index(front, id);
        let rest = edited(front, after);
        let now = edited(before, after);
        if last.0 == id {
            if table::lookup(front, id) is Some {
                text::lemma_text_lt_irreflexive(id);
                assert(text::text_lt(before[j].0, before[before.len() - 1].0));
            }
            if table::lookup(after, id) is Some && !json::agree(last.1, table::lookup(after, id)->0) {
                assert(now[now.len() - 1] == (Edit {
                    id,
                    fields: field_moves(last.1, table::lookup(after, id)->0),
                }));
            }
        } else {
            if table::lookup(before, id) is Some {
                assert(front[i].0 == id);
                table::lemma_lookup_entry(front, i);
            }
            if table::lookup(front, id) is Some {
                assert(before[j].0 == id);
                table::lemma_lookup_entry(before, j);
            }
            assert(table::lookup(front, id) == table::lookup(before, id));
            if table::lookup(before, id) is Some && table::lookup(after, id) is Some && !json::agree(
                table::lookup(before, id)->0,
                table::lookup(after, id)->0,
            ) {
                let e = Edit {
                    id,
                    fields: field_moves(
                        table::lookup(before, id)->0,
                        table::lookup(after, id)->0,
                    ),
                };
                let k = choose|k: int| 0 <= k < rest.len() && rest[k] == e;
                assert(now[k] == e);
            }
        }
        assert forall|k: int| 0 <= k < now.len() && (#[trigger] now[k]).id == id implies {
            &&& table::lookup(before, id) is Some
            &&& table::lookup(after, id) is Some
            &&& !json::agree(table::lookup(before, id)->0, table::lookup(after, id)->0)
            &&& now[k].fields == field_moves(
                table::lookup(before, id)->0,
                table::lookup(after, id)->0,
            )
        } by {
            if k < rest.len() {
                assert(rest[k] == now[k]);
            }
        }
    }
}

proof fn lemma_moved_are_exact(
    names: Seq<Seq<char>>,
    old_map: Seq<(Seq<char>, Json)>,
    new_map: Seq<(Seq<char>, Json)>,
    key: Seq<char>,
)
    ensures
        forall|k: int|
            0 <= k < moved_fields(names, old_map, new_map).len() && (#[trigger] moved_fields(
                names,
                old_map,
                new_map,
            )[k]).field == key ==> {
                &&& names.contains(key)
                &&& !json::agree_optional(table::lookup(old_map, key), table::lookup(new_map, key))
                &&& moved_fields(names, old_map, new_map)[k].from == rendered(
                    table::lookup(old_map, key),
                )
                &&& moved_fields(names, old_map, new_map)[k].to == rendered(
                    table::lookup(new_map, key),
                )
            },
        names.contains(key) && !json::agree_optional(
            table::lookup(old_map, key),
            table::lookup(new_map, key),
        ) ==> moved_fields(names, old_map, new_map).contains(
            (FieldMove {
                field: key,
                from: rendered(table::lookup(old_map, key)),
                to: rendered(table::lookup(new_map, key)),
            }),
        ),
    decreases names.len(),
{
    if names.len() > 0 {
        let front = names.drop_last();
        lemma_moved_are_exact(front, old_map, new_map, key);
        let rest = moved_fields(front, old_map, new_map);
        let now = moved_fields(names, old_map, new_map);
        let moved = !json::agree_optional(
            table::lookup(old_map, key),
            table::lookup(new_map, key),
        );
        let f = FieldMove {
            field: key,
            from: rendered(table::lookup(old_map, key)),
            to: rendered(table::lookup(new_map, key)),
        };
        if names.contains(key) && moved {
            if names.last() == key {
                assert(now[now.len() - 1] == f);
            } else {
                let i = choose|i: int| 0 <= i < names.len() && names[i] == key;
                assert(front[i] == key);
                let k = choose|k: int| 0 <= k < rest.len() && rest[k] == f;
                assert(now[k] == f);
            }
        }
        assert forall|k: int| 0 <= k < now.len() && (#[trigger] now[k]).field == key implies {
            &&& names.contains(key)
            &&& moved
            &&& now[k].from == f.from
            &&& now[k].to == f.to
        } by {
            if k < rest.len() {
                assert(rest[k] == now[k]);
                let i = choose|i: int| 0 <= i < front.len() && front[i] == key;
                assert(names[i] == key);
            } else {
                assert(names[names.len() - 1] == key);
            }
        }
    }
}

/// Of two objects, the fields reported are exactly those whose values disagree,
/// each with its old value before and its new value after.
pub proof fn law_field_moves_are_exact(
    old_map: Seq<(Seq<char>, Json)>,
    new_map: Seq<(Seq<char>, Json)>,
    key: Seq<char>,
)
    ensures
        forall|k: int|
            0 <= k < field_moves(Json::Object(old_map), Json::Object(new_map)).len()
                && (#[trigger] field_moves(Json::Object(old_map), Json::Object(new_map))[k]).field
                == key ==> {
                &&& !json::agree_optional(table::lookup(old_map, key), table::lookup(new_map, key))
                &&& field_moves(Json::Object(old_map), Json::Object(new_map))[k].from == rendered(
                    table::lookup(old_map, key),
                )
                &&& field_moves(Json::Object(old_map), Json::Object(new_map))[k].to == rendered(
                    table::lookup(new_map, key),
                )
            },
        !json::agree_optional(table::lookup(old_map, key), table::lookup(new_map, key))
            ==> field_moves(Json::Object(old_map), Json::Object(new_map)).contains(
            (FieldMove {
                field: key,
                from: rendered(table::lookup(old_map, key)),
                to: rendered(table::lookup(new_map, key)),
            }),
        ),
{
    let all = table::keys(old_map) + table::keys(new_map);
    let names = sorted_names(all);
    lemma_moved_are_exact(names, old_map, new_map, key);
    law_sorted_names_are_the_names(all);
    let i = table::lemma_lookup_index(old_map, key);
    let j = table::lemma_lookup_index(new_map, key);
    if table::lookup(old_map, key) is Some {
        assert(all[i] == key);
        assert(names.contains(key));
    } else if table::lookup(new_map, key) is Some {
        assert(all[old_map.len() + j] == key);
        assert(names.contains(key));
    }
}

/// Of two values that are not both objects, one move is reported: from the old
/// value as a whole to the new one.
pub proof fn law_plain_values_move_whole(old_value: Json, new_value: Json)
    requires
        !(old_value is Object && new_value is Object),
    ensures
        field_moves(old_value, new_value).len() == 1,
        field_moves(old_value, new_value)[0].field == "value"@,
        field_moves(old_value, new_value)[0].from == rendered(Some(old_value)),
        field_moves(old_value, new_value)[0].to == rendered(Some(new_value)),
{
}

/// A value is shown by its text, on one line and cut to a limit; what is absent
/// is said to be.
pub proof fn law_values_are_shown_by_their_text(v: Json)
    ensures
        rendered(None) == "(absent)"@,
        v matches Json::Text(s) && text::collapsed(s).len() <= RENDER_LIMIT ==> rendered(Some(v))
            == text::collapsed(v->Text_0),
        !(v is Text) && text::collapsed(outside::json_text(v)).len() <= RENDER_LIMIT ==> rendered(
            Some(v),
        ) == text::collapsed(outside::json_text(v)),
        v matches Json::Text(s) && text::collapsed(s).len() > RENDER_LIMIT ==> text::begins(
            text::collapsed(v->Text_0),
            rendered(Some(v)).drop_last(),
        ),
        rendered(Some(v)).len() <= RENDER_LIMIT + 1,
        rendered(Some(v)).len() == RENDER_LIMIT + 1 ==> rendered(Some(v)).last() == '…',
{
    reveal_strlit("…");
    let flat = text::collapsed(
        match v {
            Json::Text(s) => s,
            other => outside::json_text(other),
        },
    );
    if flat.len() > RENDER_LIMIT {
        assert(rendered(Some(v)).drop_last() =~= flat.take(RENDER_LIMIT as int));
        assert(flat.subrange(0, RENDER_LIMIT as int) =~= flat.take(RENDER_LIMIT as int));
    }
}

proof fn lemma_promoted_exact(
    id: Seq<char>,
    fields: Seq<FieldMove>,
    highlight_fields: Seq<Seq<char>>,
    kind: Seq<char>,
    n: Notice,
)
    ensures
        promoted(id, fields, highlight_fields, kind).contains(n) <==> n.kind == kind && n.id == id
            && highlight_fields.contains(n.field) && fields.contains(
            (FieldMove { field: n.field, from: n.from, to: n.to }),
        ),
    decreases fields.len(),
{
    if fields.len() > 0 {
        let front = fields.drop_last();
        lemma_promoted_exact(id, front, highlight_fields, kind, n);
        let rest = promoted(id, front, highlight_fields, kind);
        let now = promoted(id, fields, highlight_fields, kind);
        let f = FieldMove { field: n.field, from: n.from, to: n.to };
        if rest.contains(n) {
            let k = choose|k: int| 0 <= k < rest.len() && rest[k] == n;
            assert(now[k] == n);
            let i = choose|i: int| 0 <= i < front.len() && front[i] == f;
            assert(fields[i] == f);
        }
        if now.contains(n) {
            let k = choose|k: int| 0 <= k < now.len() && now[k] == n;
            if k < rest.len() {
                assert(rest[k] == n);
            } else {
                assert(fields[fields.len() - 1] == f);
            }
        }
        if n.kind == kind && n.id == id && highlight_fields.contains(n.field) && fields.contains(f) {
            let i = choose|i: int| 0 <= i < fields.len() && fields[i] == f;
            if i < front.len() {
                assert(front[i] == f);
            } else {
                assert(now[now.len() - 1] == n);
            }
        }
    }
}

/// What is promoted to a reader's attention is exactly each move of a field that
/// is to be watched, with the entry it stands in and its values as moved.
pub proof fn law_promotions_are_exact(
    entries: Seq<Edit>,
    highlight_fields: Seq<Seq<char>>,
    kind: Seq<char>,
    n: Notice,
)
    ensures
        promoted_all(entries, highlight_fields, kind).contains(n) <==> n.kind == kind
            && highlight_fields.contains(n.field) && exists|i: int|
            0 <= i < entries.len() && (#[trigger] entries[i]).id == n.id
                && entries[i].fields.contains(
                (FieldMove { field: n.field, from: n.from, to: n.to }),
            ),
    decreases entries.len(),
{
    let f = FieldMove { field: n.field, from: n.from, to: n.to };
    if entries.len() > 0 {
        let front = entries.drop_last();
        let last = entries[entries.len() - 1];
        law_promotions_are_exact(front, highlight_fields, kind, n);
        lemma_promoted_exact(last.id, last.fields, highlight_fields, kind, n);
        let rest = promoted_all(front, highlight_fields, kind);
        let more = promoted(last.id, last.fields, highlight_fields, kind);
        let now = promoted_all(entries, highlight_fields, kind);
        assert(now == rest + more);
        if rest.contains(n) {
            let k = choose|k: int| 0 <= k < rest.len() && rest[k] == n;
            assert(now[k] == n);
            let i = choose|i: int|
                0 <= i < front.len() && (#[trigger] front[i]).id == n.id && front[i].fields.contains(f);
            assert(entries[i] == front[i]);
        }
        if more.contains(n) {
            let k = choose|k: int| 0 <= k < more.len() && more[k] == n;
            assert(now[rest.len() + k] == n);
        }
        if now.contains(n) {
            let k = choose|k: int| 0 <= k < now.len() && now[k] == n;
            if k < rest.len() {
                assert(rest[k] == n);
            } else {
                assert(more[k - rest.len()] == n);
                assert(entries[entries.len() - 1].id == n.id);
            }
        }
        if n.kind == kind && highlight_fields.contains(n.field) && exists|i: int|
            0 <= i < entries.len() && (#[trigger] entries[i]).id == n.id
                && entries[i].fields.contains(f) {
            let i = choose|i: int|
                0 <= i < entries.len() && (#[trigger] entries[i]).id == n.id
                    && entries[i].fields.contains(f);
            if i < front.len() {
                assert(front[i] == entries[i]);
            }
        }
    }
}

/// A comparison that starts from nothing reports as added what only the new map
/// has, as removed what only the old one has, and as modified what both have with
/// values that disagree.
pub proof fn law_comparison_is_exact(
    delta: Movement,
    before: Seq<(Seq<char>, Json)>,
    after: Seq<(Seq<char>, Json)>,
    highlight_fields: Seq<Seq<char>>,
    kind: Seq<char>,
    id: Seq<char>,
)
    requires
        table::ordered(before),
        delta.added.len() == 0,
        delta.removed.len() == 0,
        delta.modified.len() == 0,
    ensures
        ({
            let found = compared(delta, before, after, highlight_fields, kind);
            let old_value = table::lookup(before, id);
            let new_value = table::lookup(after, id);
            &&& found.added.contains(id) <==> old_value is None && new_value is Some
            &&& found.removed.contains(id) <==> old_value is Some && new_value is None
            &&& (exists|k: int|
                0 <= k < found.modified.len() && (#[trigger] found.modified[k]).id == id) <==> (
            old_value is Some && new_value is Some && !json::agree(old_value->0, new_value->0))
            &&& forall|k: int|
                0 <= k < found.modified.len() && (#[trigger] found.modified[k]).id == id
                    ==> found.modified[k].fields == field_moves(old_value->0, new_value->0)
        }),
{
    law_absent_keys_are_exact(after, before, id);
    law_absent_keys_are_exact(before, after, id);
    law_edits_are_exact(before, after, id);
    let found = compared(delta, before, after, highlight_fields, kind);
    assert(found.added =~= absent_keys(after, before));
    assert(found.removed =~= absent_keys(before, after));
    assert(found.modified =~= edited(before, after));
    let old_value = table::lookup(before, id);
    let new_value = table::lookup(after, id);
    if old_value is Some && new_value is Some && !json::agree(old_value->0, new_value->0) {
        let e = Edit { id, fields: field_moves(old_value->0, new_value->0) };
        let k = choose|k: int| 0 <= k < found.modified.len() && found.modified[k] == e;
        assert(found.modified[k].id == id);
    }
}

/// A watched field of an entry that both maps have as an object is highlighted
/// where its value moved.
pub proof fn lemma_watched(
    delta: Movement,
    before: Seq<(Seq<char>, Json)>,
    after: Seq<(Seq<char>, Json)>,
    watched: Seq<Seq<char>>,
    kind: Seq<char>,
    id: Seq<char>,
    field: Seq<char>,
    old_map: Seq<(Seq<char>, Json)>,
    new_map: Seq<(Seq<char>, Json)>,
)
    requires
        table::ordered(before),
        table::lookup(before, id) == Some(Json::Object(old_map)),
        table::lookup(after, id) == Some(Json::Object(new_map)),
        table::ordered(old_map),
        table::ordered(new_map),
        watched.contains(field),
        !json::agree_optional(table::lookup(old_map, field), table::lookup(new_map, field)),
    ensures
        compared(delta, before, after, watched, kind).highlights.contains(
            (Notice {
                kind,
                id,
                field,
                from: rendered(table::lookup(old_map, field)),
                to: rendered(table::lookup(new_map, field)),
            }),
        ),
{
    let n = Notice {
        kind,
        id,
        field,
        from: rendered(table::lookup(old_map, field)),
        to: rendered(table::lookup(new_map, field)),
    };
    let old_value = Json::Object(old_map);
    let new_value = Json::Object(new_map);
    law_field_moves_are_exact(old_map, new_map, field);
    law_field_changes_mean_a_difference(old_map, new_map);
    let f = FieldMove { field, from: n.from, to: n.to };
    let fields = field_moves(old_value, new_value);
    let k = choose|k: int| 0 <= k < fields.len() && fields[k] == f;
    assert(fields.len() > 0);
    law_edits_are_exact(before, after, id);
    let entries = edited(before, after);
    let e = Edit { id, fields };
    let i = choose|i: int| 0 <= i < entries.len() && entries[i] == e;
    assert(entries[i].id == n.id && entries[i].fields.contains(f));
    law_promotions_are_exact(entries, watched, kind, n);
    let more = promoted_all(entries, watched, kind);
    let j = choose|j: int| 0 <= j < more.len() && more[j] == n;
    let all = compared(delta, before, after, watched, kind).highlights;
    assert(all == delta.highlights + more);
    assert(all[delta.highlights.len() + j] == n);
}

/// A movement is quiet exactly where nothing was added, removed or modified and
/// nothing counted.
pub proof fn law_quiet_means_nothing_moved(m: Movement)
    ensures
        m.quiet() ==> m.added.len() == 0 && m.removed.len() == 0 && m.modified.len() == 0,
        m.added.len() > 0 || m.removed.len() > 0 || m.modified.len() > 0 ==> !m.quiet(),
        (exists|i: int| 0 <= i < m.counts.len() && (#[trigger] m.counts[i]).1 > 0) ==> !m.quiet(),
        m.added.len() == 0 && m.removed.len() == 0 && m.modified.len() == 0 && m.counts.len() == 0
            ==> m.quiet(),
{
    if exists|i: int| 0 <= i < m.counts.len() && (#[trigger] m.counts[i]).1 > 0 {
        let i = choose|i: int| 0 <= i < m.counts.len() && (#[trigger] m.counts[i]).1 > 0;
        assert(m.counts[i].1 != 0);
    }
}

/// What is highlighted by a comparison that starts from nothing is a watched field
/// of an entry that was modified.
pub proof fn lemma_only_watched(
    delta: Movement,
    before: Seq<(Seq<char>, Json)>,
    after: Seq<(Seq<char>, Json)>,
    watched: Seq<Seq<char>>,
    kind: Seq<char>,
    n: Notice,
)
    requires
        delta.highlights.len() == 0,
        compared(delta, before, after, watched, kind).highlights.contains(n),
    ensures
        n.kind == kind,
        watched.contains(n.field),
        exists|i: int|
            0 <= i < edited(before, after).len() && (#[trigger] edited(before, after)[i]).id
                == n.id && edited(before, after)[i].fields.contains(
                (FieldMove { field: n.field, from: n.from, to: n.to }),
            ),
{
    let entries = edited(before, after);
    let more = promoted_all(entries, watched, kind);
    assert(compared(delta, before, after, watched, kind).highlights =~= more);
    law_promotions_are_exact(entries, watched, kind, n);
}

} // verus!
