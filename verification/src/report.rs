//! Human and machine reports. The change report becomes a pull request's body;
//! the commit message is the one-line version of the same thing.
//!
//! Each `..._on` function says what its section adds to the text so far.

use vstd::prelude::*;

use crate::bundle;
use crate::bundle::{Bundle, Record, SourceRecord};
use crate::diff;
use crate::diff::{Delta, Edit, FieldChange, FieldMove, Highlight, Modified, Movement, Notice};
use crate::json;
use crate::json::{Doc, Json};
use crate::obligations;
use crate::obligations::{Duty, Impact, Obligation, ObligationDelta, Party, Profile};
use crate::plan;
use crate::plan::{Outlook, Plan};
use crate::severity::Severity;
use crate::sources;
use crate::table;
use crate::table::Table;
use crate::text;

verus! {

pub const MAX_LISTED: usize = 25;

pub const MAX_FIELDS: usize = 4;

pub open spec fn bool_word(b: bool) -> Seq<char> {
    if b {
        "true"@
    } else {
        "false"@
    }
}

fn word(b: bool) -> (s: &'static str)
    ensures
        s@ == bool_word(b),
{
    if b {
        "true"
    } else {
        "false"
    }
}

fn push_count(out: &mut String, n: usize)
    ensures
        final(out)@ == old(out)@ + text::decimal(n as nat),
{
    out.push_str(text::decimal_text(n as u64).as_str());
}

// The commit message.

pub open spec fn movement_counts(d: Movement) -> Seq<char> {
    d.source + ": +"@ + text::decimal(d.added.len()) + " -"@ + text::decimal(d.removed.len())
        + " ~"@ + text::decimal(d.modified.len())
}

pub open spec fn moved_counts(deltas: Seq<Movement>) -> Seq<Seq<char>>
    decreases deltas.len(),
{
    if deltas.len() == 0 {
        Seq::empty()
    } else {
        let rest = moved_counts(deltas.drop_last());
        if deltas.last().changed {
            rest.push(movement_counts(deltas.last()))
        } else {
            rest
        }
    }
}

pub open spec fn commit_text(p: Outlook) -> Seq<char> {
    let counts = moved_counts(p.deltas);
    if p.genesis || counts.len() == 0 {
        p.headline_text()
    } else {
        p.headline_text() + " ["@ + text::join(counts, "; "@) + "]"@
    }
}

fn counts_line(delta: &Delta) -> (line: String)
    ensures
        line@ == movement_counts(delta@),
{
    let mut line = delta.source.clone();
    line.push_str(": +");
    push_count(&mut line, delta.added.len());
    line.push_str(" -");
    push_count(&mut line, delta.removed.len());
    line.push_str(" ~");
    push_count(&mut line, delta.modified.len());
    assert(delta@.added.len() == delta.added@.len());
    line
}

fn count_lines(deltas: &Vec<Delta>) -> (lines: Vec<String>)
    ensures
        text::texts(lines@) == moved_counts(plan::movements(deltas@)),
{
    let mut lines: Vec<String> = Vec::new();
    let ghost all = plan::movements(deltas@);
    let mut i: usize = 0;
    assert(text::texts(lines@) =~= moved_counts(all.take(0)));
    while i < deltas.len()
        invariant
            i <= deltas@.len(),
            all == plan::movements(deltas@),
            text::texts(lines@) == moved_counts(all.take(i as int)),
        decreases deltas@.len() - i,
    {
        proof {
            assert(all.take(i + 1).drop_last() =~= all.take(i as int));
            assert(all.take(i + 1).last() == deltas@[i as int]@);
        }
        if deltas[i].changed {
            let line = counts_line(&deltas[i]);
            proof {
                text::lemma_texts_push(lines@, line);
            }
            lines.push(line);
        }
        i += 1;
    }
    assert(all.take(all.len() as int) =~= all);
    lines
}

pub fn commit_message(plan: &Plan) -> (message: String)
    ensures
        message@ == commit_text(plan@),
{
    let mut message = plan.headline();
    let counts = count_lines(&plan.deltas);
    assert(counts@.len() == text::texts(counts@).len());
    if plan.genesis || counts.len() == 0 {
        return message;
    }
    message.push_str(" [");
    message.push_str(text::join_texts(&counts, "; ").as_str());
    message.push_str("]");
    message
}

// Pins.

/// Offline replays carry a synthetic commit id, which must not be rendered as
/// a link that leads to nothing.
pub open spec fn pin_text(r: Record) -> Seq<char> {
    let p = r.provenance;
    if text::begins(p.commit, "offline-"@) {
        "`"@ + p.commit + "` (offline replay)"@
    } else {
        "[`"@ + text::byte_prefix(p.commit, 8)->0 + "`](https://github.com/"@ + p.repo + "/commit/"@
            + p.commit + ") @ "@ + p.committed_at
    }
}

/// A commit id whose first eight bytes end between two characters.
pub open spec fn pinnable(r: Record) -> bool {
    text::begins(r.provenance.commit, "offline-"@) || text::byte_prefix(
        r.provenance.commit,
        8,
    ) is Some
}

pub open spec fn all_pinnable(m: Seq<(Seq<char>, Record)>) -> bool {
    forall|i: int| 0 <= i < m.len() ==> pinnable((#[trigger] m[i]).1)
}

fn pin(record: &SourceRecord) -> (line: String)
    requires
        pinnable(record@),
    ensures
        line@ == pin_text(record@),
{
    let p = &record.provenance;
    if text::starts_with(p.commit.as_str(), "offline-") {
        let mut line = "`".to_owned();
        line.push_str(p.commit.as_str());
        line.push_str("` (offline replay)");
        return line;
    }
    let mut line = "[`".to_owned();
    line.push_str(text::first_bytes(p.commit.as_str(), 8).as_str());
    line.push_str("`](https://github.com/");
    line.push_str(p.repo.as_str());
    line.push_str("/commit/");
    line.push_str(p.commit.as_str());
    line.push_str(") @ ");
    line.push_str(p.committed_at.as_str());
    line
}

/// Whether every pin of a bundle can be shortened for a report.
pub fn can_pin(bundle: &Bundle) -> (yes: bool)
    ensures
        yes == all_pinnable(bundle@.sources),
{
    let ghost all = bundle@.sources;
    let mut i: usize = 0;
    while i < bundle.sources.len()
        invariant
            i <= bundle.sources@.len(),
            all == bundle::records(bundle.sources@),
            forall|j: int| 0 <= j < i ==> pinnable((#[trigger] all[j]).1),
        decreases bundle.sources@.len() - i,
    {
        let commit = bundle.sources.value(i).provenance.commit.as_str();
        assert(all[i as int].1.provenance.commit == commit@);
        if !text::starts_with(commit, "offline-") && !text::cuts_cleanly(commit, 8) {
            assert(!pinnable(all[i as int].1));
            return false;
        }
        i += 1;
    }
    true
}

pub open spec fn pins_on(out: Seq<char>, m: Seq<(Seq<char>, Record)>) -> Seq<char>
    decreases m.len(),
{
    if m.len() == 0 {
        out
    } else {
        pins_on(out, m.drop_last()) + "| pinned `"@ + m.last().0 + "` | "@ + pin_text(m.last().1)
            + " |\n"@
    }
}

fn push_pins(out: &mut String, sources: &Table<SourceRecord>)
    requires
        all_pinnable(bundle::records(sources@)),
    ensures
        final(out)@ == pins_on(old(out)@, bundle::records(sources@)),
{
    let ghost start = out@;
    let ghost all = bundle::records(sources@);
    let mut i: usize = 0;
    while i < sources.len()
        invariant
            i <= sources@.len(),
            all == bundle::records(sources@),
            all_pinnable(all),
            out@ == pins_on(start, all.take(i as int)),
        decreases sources@.len() - i,
    {
        proof {
            assert(all.take(i + 1).drop_last() =~= all.take(i as int));
            assert(all.take(i + 1).last() == (sources@[i as int].0, sources@[i as int].1@));
            assert(pinnable(all[i as int].1));
        }
        out.push_str("| pinned `");
        out.push_str(sources.key(i));
        out.push_str("` | ");
        out.push_str(pin(sources.value(i)).as_str());
        out.push_str(" |\n");
        i += 1;
    }
    assert(all.take(all.len() as int) =~= all);
}

// Lists.

pub open spec fn shown(n: nat) -> int {
    if n > MAX_LISTED {
        MAX_LISTED as int
    } else {
        n as int
    }
}

pub open spec fn more_on(out: Seq<char>, n: nat) -> Seq<char> {
    if n > MAX_LISTED {
        out + "- …and "@ + text::decimal((n - MAX_LISTED) as nat) + " more\n"@
    } else {
        out
    }
}

fn push_more(out: &mut String, n: usize)
    ensures
        final(out)@ == more_on(old(out)@, n as nat),
{
    if n > MAX_LISTED {
        out.push_str("- …and ");
        push_count(out, n - MAX_LISTED);
        out.push_str(" more\n");
    }
}

fn first_of(n: usize) -> (k: usize)
    ensures
        k as int == shown(n as nat),
{
    if n > MAX_LISTED {
        MAX_LISTED
    } else {
        n
    }
}

pub open spec fn ids_on(out: Seq<char>, ids: Seq<Seq<char>>) -> Seq<char>
    decreases ids.len(),
{
    if ids.len() == 0 {
        out
    } else {
        ids_on(out, ids.drop_last()) + "- `"@ + ids.last() + "`\n"@
    }
}

pub open spec fn list_on(out: Seq<char>, label: Seq<char>, ids: Seq<Seq<char>>) -> Seq<char> {
    if ids.len() == 0 {
        out
    } else {
        more_on(
            ids_on(out + "**"@ + label + "**\n\n"@, ids.take(shown(ids.len()))),
            ids.len(),
        ) + "\n"@
    }
}

pub fn push_ids(out: &mut String, ids: &Vec<String>, k: usize)
    requires
        k <= ids@.len(),
    ensures
        final(out)@ == ids_on(old(out)@, text::texts(ids@).take(k as int)),
{
    let ghost start = out@;
    let ghost all = text::texts(ids@);
    let mut i: usize = 0;
    while i < k
        invariant
            i <= k <= ids@.len(),
            all == text::texts(ids@),
            out@ == ids_on(start, all.take(i as int)),
        decreases k - i,
    {
        proof {
            assert(all.take(i + 1).drop_last() =~= all.take(i as int));
            assert(all.take(i + 1).last() == ids@[i as int]@);
        }
        out.push_str("- `");
        out.push_str(ids[i].as_str());
        out.push_str("`\n");
        i += 1;
    }
}

fn list(out: &mut String, label: &str, ids: &Vec<String>)
    ensures
        final(out)@ == list_on(old(out)@, label@, text::texts(ids@)),
{
    assert(ids@.len() == text::texts(ids@).len());
    if ids.len() == 0 {
        return;
    }
    out.push_str("**");
    out.push_str(label);
    out.push_str("**\n\n");
    push_ids(out, ids, first_of(ids.len()));
    push_more(out, ids.len());
    out.push_str("\n");
}

// Highlights.

pub open spec fn all_notices(deltas: Seq<Movement>) -> Seq<Notice>
    decreases deltas.len(),
{
    if deltas.len() == 0 {
        Seq::empty()
    } else {
        all_notices(deltas.drop_last()) + deltas.last().highlights
    }
}

pub open spec fn notices_on(out: Seq<char>, notices: Seq<Notice>) -> Seq<char>
    decreases notices.len(),
{
    if notices.len() == 0 {
        out
    } else {
        let n = notices.last();
        notices_on(out, notices.drop_last()) + "- **"@ + n.id + "** `"@ + n.field + "` — `"@ + n.from
            + "` → `"@ + n.to + "`\n"@
    }
}

pub open spec fn attention_on(out: Seq<char>, deltas: Seq<Movement>) -> Seq<char> {
    let all = all_notices(deltas);
    if all.len() == 0 {
        out
    } else {
        more_on(
            notices_on(out + "## Requires attention\n\n"@, all.take(shown(all.len()))),
            all.len(),
        ) + "\n"@
    }
}

fn gather_highlights(deltas: &Vec<Delta>) -> (found: Vec<&Highlight>)
    ensures
        notices_of(found@) == all_notices(plan::movements(deltas@)),
{
    let mut found: Vec<&Highlight> = Vec::new();
    let ghost all = plan::movements(deltas@);
    let mut i: usize = 0;
    assert(notices_of(found@) =~= all_notices(all.take(0)));
    while i < deltas.len()
        invariant
            i <= deltas@.len(),
            all == plan::movements(deltas@),
            notices_of(found@) == all_notices(all.take(i as int)),
        decreases deltas@.len() - i,
    {
        let ghost start = notices_of(found@);
        let highlights = &deltas[i].highlights;
        let ghost these = diff::notices(highlights@);
        let mut j: usize = 0;
        assert(start + these.take(0) =~= start);
        while j < highlights.len()
            invariant
                j <= highlights@.len(),
                these == diff::notices(highlights@),
                notices_of(found@) == start + these.take(j as int),
            decreases highlights@.len() - j,
        {
            let h = &highlights[j];
            proof {
                assert(notices_of(found@.push(h)) =~= notices_of(found@).push(h@));
                assert(these[j as int] == h@);
                assert(start + these.take(j + 1) =~= (start + these.take(j as int)).push(h@));
            }
            found.push(h);
            j += 1;
        }
        proof {
            assert(these.take(these.len() as int) =~= these);
            assert(all.take(i + 1).drop_last() =~= all.take(i as int));
            assert(all.take(i + 1).last() == deltas@[i as int]@);
        }
        i += 1;
    }
    assert(all.take(all.len() as int) =~= all);
    found
}

pub open spec fn notices_of(found: Seq<&Highlight>) -> Seq<Notice> {
    found.map_values(|h: &Highlight| h@)
}

fn push_attention(out: &mut String, deltas: &Vec<Delta>)
    ensures
        final(out)@ == attention_on(old(out)@, plan::movements(deltas@)),
{
    let found = gather_highlights(deltas);
    let ghost all = notices_of(found@);
    assert(found@.len() == all.len());
    if found.len() == 0 {
        return;
    }
    out.push_str("## Requires attention\n\n");
    let ghost start = out@;
    let k: usize = first_of(found.len());
    let mut i: usize = 0;
    while i < k
        invariant
            i <= k <= found@.len(),
            all == notices_of(found@),
            out@ == notices_on(start, all.take(i as int)),
        decreases k - i,
    {
        let h = found[i];
        proof {
            assert(all.take(i + 1).drop_last() =~= all.take(i as int));
            assert(all.take(i + 1).last() == h@);
        }
        out.push_str("- **");
        out.push_str(h.id.as_str());
        out.push_str("** `");
        out.push_str(h.field.as_str());
        out.push_str("` — `");
        out.push_str(h.from.as_str());
        out.push_str("` → `");
        out.push_str(h.to.as_str());
        out.push_str("`\n");
        i += 1;
    }
    push_more(out, found.len());
    out.push_str("\n");
}

// One source.

pub open spec fn field_names(fields: Seq<FieldMove>) -> Seq<Seq<char>> {
    fields.map_values(|f: FieldMove| f.field)
}

pub open spec fn fields_on(out: Seq<char>, fields: Seq<FieldMove>) -> Seq<char>
    decreases fields.len(),
{
    if fields.len() == 0 {
        out
    } else {
        let f = fields.last();
        fields_on(out, fields.drop_last()) + "  - `"@ + f.field + "`: `"@ + f.from + "` → `"@ + f.to
            + "`\n"@
    }
}

pub open spec fn edit_on(out: Seq<char>, e: Edit) -> Seq<char> {
    fields_on(
        out + "- `"@ + e.id + "` — "@ + text::join(field_names(e.fields), ", "@) + "\n"@,
        e.fields.take(
            if e.fields.len() > MAX_FIELDS {
                MAX_FIELDS as int
            } else {
                e.fields.len() as int
            },
        ),
    )
}

pub open spec fn edits_on(out: Seq<char>, edits: Seq<Edit>) -> Seq<char>
    decreases edits.len(),
{
    if edits.len() == 0 {
        out
    } else {
        edit_on(edits_on(out, edits.drop_last()), edits.last())
    }
}

pub open spec fn modified_on(out: Seq<char>, edits: Seq<Edit>) -> Seq<char> {
    if edits.len() == 0 {
        out
    } else {
        more_on(
            edits_on(out + "**Modified**\n\n"@, edits.take(shown(edits.len()))),
            edits.len(),
        ) + "\n"@
    }
}

pub open spec fn count_rows_on(out: Seq<char>, counts: Seq<(Seq<char>, usize)>) -> Seq<char>
    decreases counts.len(),
{
    if counts.len() == 0 {
        out
    } else {
        count_rows_on(out, counts.drop_last()) + "- `"@ + counts.last().0 + "`: "@ + text::decimal(
            counts.last().1 as nat,
        ) + "\n"@
    }
}

pub open spec fn counts_on(out: Seq<char>, counts: Seq<(Seq<char>, usize)>) -> Seq<char> {
    if counts.len() == 0 {
        out
    } else {
        count_rows_on(out + "**Counts**\n\n"@, counts) + "\n"@
    }
}

pub open spec fn section_on(out: Seq<char>, d: Movement) -> Seq<char> {
    if !d.changed {
        out + "## "@ + d.source + " — unchanged\n\n"@
    } else {
        let head = out + "## "@ + d.source + " — "@ + d.severity.label_text() + " ("@
            + text::decimal(d.added.len()) + " added, "@ + text::decimal(d.removed.len())
            + " removed, "@ + text::decimal(d.modified.len()) + " modified)\n\n"@;
        let listed = list_on(list_on(head, "Added"@, d.added), "Removed"@, d.removed);
        counts_on(modified_on(listed, d.modified), d.counts)
    }
}

pub open spec fn sections_on(out: Seq<char>, deltas: Seq<Movement>) -> Seq<char>
    decreases deltas.len(),
{
    if deltas.len() == 0 {
        out
    } else {
        section_on(sections_on(out, deltas.drop_last()), deltas.last())
    }
}

fn name_fields(fields: &Vec<FieldChange>) -> (names: Vec<String>)
    ensures
        text::texts(names@) == field_names(diff::moves(fields@)),
{
    let mut names: Vec<String> = Vec::new();
    let mut i: usize = 0;
    while i < fields.len()
        invariant
            i <= fields@.len(),
            names@.len() == i,
            forall|j: int| 0 <= j < i ==> (#[trigger] names@[j])@ == fields@[j].field@,
        decreases fields@.len() - i,
    {
        names.push(fields[i].field.clone());
        i += 1;
    }
    assert(text::texts(names@) =~= field_names(diff::moves(fields@)));
    names
}

fn push_edit(out: &mut String, entry: &Modified)
    ensures
        final(out)@ == edit_on(old(out)@, entry@),
{
    out.push_str("- `");
    out.push_str(entry.id.as_str());
    out.push_str("` — ");
    out.push_str(text::join_texts(&name_fields(&entry.fields), ", ").as_str());
    out.push_str("\n");
    let ghost start = out@;
    let ghost all = diff::moves(entry.fields@);
    let k: usize = if entry.fields.len() > MAX_FIELDS {
        MAX_FIELDS
    } else {
        entry.fields.len()
    };
    let mut i: usize = 0;
    while i < k
        invariant
            i <= k <= entry.fields@.len(),
            all == diff::moves(entry.fields@),
            out@ == fields_on(start, all.take(i as int)),
        decreases k - i,
    {
        let f = &entry.fields[i];
        proof {
            assert(all.take(i + 1).drop_last() =~= all.take(i as int));
            assert(all.take(i + 1).last() == f@);
        }
        out.push_str("  - `");
        out.push_str(f.field.as_str());
        out.push_str("`: `");
        out.push_str(f.from.as_str());
        out.push_str("` → `");
        out.push_str(f.to.as_str());
        out.push_str("`\n");
        i += 1;
    }
}

fn push_modified(out: &mut String, modified: &Vec<Modified>)
    ensures
        final(out)@ == modified_on(old(out)@, diff::edits(modified@)),
{
    let ghost all = diff::edits(modified@);
    assert(modified@.len() == all.len());
    if modified.len() == 0 {
        return;
    }
    out.push_str("**Modified**\n\n");
    let ghost start = out@;
    let k: usize = first_of(modified.len());
    let mut i: usize = 0;
    while i < k
        invariant
            i <= k <= modified@.len(),
            all == diff::edits(modified@),
            out@ == edits_on(start, all.take(i as int)),
        decreases k - i,
    {
        proof {
            assert(all.take(i + 1).drop_last() =~= all.take(i as int));
            assert(all.take(i + 1).last() == modified@[i as int]@);
        }
        push_edit(out, &modified[i]);
        i += 1;
    }
    push_more(out, modified.len());
    out.push_str("\n");
}

fn push_counts(out: &mut String, counts: &Table<usize>)
    ensures
        final(out)@ == counts_on(old(out)@, counts@),
{
    if counts.len() == 0 {
        return;
    }
    out.push_str("**Counts**\n\n");
    let ghost start = out@;
    let mut i: usize = 0;
    while i < counts.len()
        invariant
            i <= counts@.len(),
            out@ == count_rows_on(start, counts@.take(i as int)),
        decreases counts@.len() - i,
    {
        proof {
            assert(counts@.take(i + 1).drop_last() =~= counts@.take(i as int));
            assert(counts@.take(i + 1).last() == counts@[i as int]);
        }
        out.push_str("- `");
        out.push_str(counts.key(i));
        out.push_str("`: ");
        push_count(out, *counts.value(i));
        out.push_str("\n");
        i += 1;
    }
    assert(counts@.take(counts@.len() as int) =~= counts@);
    out.push_str("\n");
}

fn push_section(out: &mut String, delta: &Delta)
    ensures
        final(out)@ == section_on(old(out)@, delta@),
{
    out.push_str("## ");
    out.push_str(delta.source.as_str());
    if !delta.changed {
        out.push_str(" — unchanged\n\n");
        return;
    }
    assert(delta@.added.len() == delta.added@.len());
    out.push_str(" — ");
    out.push_str(delta.severity.label());
    out.push_str(" (");
    push_count(out, delta.added.len());
    out.push_str(" added, ");
    push_count(out, delta.removed.len());
    out.push_str(" removed, ");
    push_count(out, delta.modified.len());
    out.push_str(" modified)\n\n");
    list(out, "Added", &delta.added);
    list(out, "Removed", &delta.removed);
    push_modified(out, &delta.modified);
    push_counts(out, &delta.counts);
}

fn push_sections(out: &mut String, deltas: &Vec<Delta>)
    ensures
        final(out)@ == sections_on(old(out)@, plan::movements(deltas@)),
{
    let ghost start = out@;
    let ghost all = plan::movements(deltas@);
    let mut i: usize = 0;
    while i < deltas.len()
        invariant
            i <= deltas@.len(),
            all == plan::movements(deltas@),
            out@ == sections_on(start, all.take(i as int)),
        decreases deltas@.len() - i,
    {
        proof {
            assert(all.take(i + 1).drop_last() =~= all.take(i as int));
            assert(all.take(i + 1).last() == deltas@[i as int]@);
        }
        push_section(out, &deltas[i]);
        i += 1;
    }
    assert(all.take(all.len() as int) =~= all);
}

// Drift.

pub open spec fn all_drift(deltas: Seq<Movement>) -> Seq<Seq<char>>
    decreases deltas.len(),
{
    if deltas.len() == 0 {
        Seq::empty()
    } else {
        all_drift(deltas.drop_last()) + deltas.last().drift
    }
}

pub open spec fn notes_on(out: Seq<char>, notes: Seq<Seq<char>>) -> Seq<char>
    decreases notes.len(),
{
    if notes.len() == 0 {
        out
    } else {
        notes_on(out, notes.drop_last()) + "- "@ + notes.last() + "\n"@
    }
}

pub open spec fn drift_on(out: Seq<char>, deltas: Seq<Movement>) -> Seq<char> {
    let all = all_drift(deltas);
    if all.len() == 0 {
        out
    } else {
        notes_on(out + "## Upstream drift\n\n"@, all) + "\n"@
    }
}

fn gather_drift(deltas: &Vec<Delta>) -> (notes: Vec<String>)
    ensures
        text::texts(notes@) == all_drift(plan::movements(deltas@)),
{
    let mut notes: Vec<String> = Vec::new();
    let ghost all = plan::movements(deltas@);
    let mut i: usize = 0;
    assert(text::texts(notes@) =~= all_drift(all.take(0)));
    while i < deltas.len()
        invariant
            i <= deltas@.len(),
            all == plan::movements(deltas@),
            text::texts(notes@) == all_drift(all.take(i as int)),
        decreases deltas@.len() - i,
    {
        diff::add_texts(&deltas[i].drift, &mut notes);
        proof {
            assert(all.take(i + 1).drop_last() =~= all.take(i as int));
            assert(all.take(i + 1).last() == deltas@[i as int]@);
        }
        i += 1;
    }
    assert(all.take(all.len() as int) =~= all);
    notes
}

pub fn push_notes(out: &mut String, notes: &Vec<String>)
    ensures
        final(out)@ == notes_on(old(out)@, text::texts(notes@)),
{
    let ghost start = out@;
    let ghost all = text::texts(notes@);
    let mut i: usize = 0;
    while i < notes.len()
        invariant
            i <= notes@.len(),
            all == text::texts(notes@),
            out@ == notes_on(start, all.take(i as int)),
        decreases notes@.len() - i,
    {
        proof {
            assert(all.take(i + 1).drop_last() =~= all.take(i as int));
            assert(all.take(i + 1).last() == notes@[i as int]@);
        }
        out.push_str("- ");
        out.push_str(notes[i].as_str());
        out.push_str("\n");
        i += 1;
    }
    assert(all.take(all.len() as int) =~= all);
}

fn push_drift(out: &mut String, deltas: &Vec<Delta>)
    ensures
        final(out)@ == drift_on(old(out)@, plan::movements(deltas@)),
{
    let notes = gather_drift(deltas);
    assert(notes@.len() == text::texts(notes@).len());
    if notes.len() == 0 {
        return;
    }
    out.push_str("## Upstream drift\n\n");
    push_notes(out, &notes);
    out.push_str("\n");
}

// Who a change of the rules lands on.

pub open spec fn provider(class: Seq<char>, cert_type: Seq<char>) -> Party {
    Party {
        role: "Providers"@,
        class: Some(class),
        cert_type: Some(cert_type),
        path: None,
    }
}

pub open spec fn anyone(role: Seq<char>) -> Party {
    Party { role, class: None, cert_type: None, path: None }
}

/// The profiles that a change report accounts for.
pub open spec fn audience() -> Seq<Party> {
    seq![
        provider("A"@, "20x"@),
        provider("A"@, "Rev5"@),
        provider("B"@, "20x"@),
        provider("B"@, "Rev5"@),
        provider("C"@, "20x"@),
        provider("C"@, "Rev5"@),
        provider("D"@, "20x"@),
        provider("D"@, "Rev5"@),
        anyone("Agencies"@),
        anyone("Assessors"@),
        anyone("Advisors"@),
        anyone("FedRAMP"@),
    ]
}

pub open spec fn impact_row(d: Impact) -> Seq<char> {
    let shifts = obligations::binding_only(d.changed).len();
    let head = "| "@ + d.profile + " | "@ + text::decimal(d.added.len()) + " | "@ + text::decimal(
        d.removed.len(),
    ) + " | "@ + text::decimal(d.changed.len()) + " | "@;
    if shifts == 0 {
        head + "— |\n"@
    } else {
        head + text::decimal(shifts) + " |\n"@
    }
}

/// One row for each party whose obligations moved.
pub open spec fn impact_rows(before: Json, after: Json, parties: Seq<Party>) -> Seq<Seq<char>>
    decreases parties.len(),
{
    if parties.len() == 0 {
        Seq::empty()
    } else {
        let rest = impact_rows(before, after, parties.drop_last());
        let d = obligations::impact(before, after, parties.last());
        if d.empty() {
            rest
        } else {
            rest.push(impact_row(d))
        }
    }
}

pub open spec fn impact_on(out: Seq<char>, before: Option<Json>, after: Option<Json>) -> Seq<char> {
    match (before, after) {
        (Some(before), Some(after)) => {
            let rows = impact_rows(before, after, audience());
            if rows.len() == 0 {
                out
            } else {
                out
                    + "## Who this affects\n\n| profile | added | removed | changed | binding shifts |\n|---|---|---|---|---|\n"@
                    + text::join(rows, ""@) + "\n"@
            }
        },
        _ => out,
    }
}

fn provider_profile(class: &str, cert_type: &str) -> (p: Profile)
    ensures
        p@ == provider(class@, cert_type@),
{
    Profile {
        role: "Providers".to_owned(),
        class: Some(class.to_owned()),
        cert_type: Some(cert_type.to_owned()),
        path: None,
    }
}

fn anyone_profile(role: &str) -> (p: Profile)
    ensures
        p@ == anyone(role@),
{
    Profile { role: role.to_owned(), class: None, cert_type: None, path: None }
}

pub open spec fn parties(profiles: Seq<Profile>) -> Seq<Party> {
    profiles.map_values(|p: Profile| p@)
}

fn profiles() -> (list: Vec<Profile>)
    ensures
        parties(list@) == audience(),
{
    let list = vec![
        provider_profile("A", "20x"),
        provider_profile("A", "Rev5"),
        provider_profile("B", "20x"),
        provider_profile("B", "Rev5"),
        provider_profile("C", "20x"),
        provider_profile("C", "Rev5"),
        provider_profile("D", "20x"),
        provider_profile("D", "Rev5"),
        anyone_profile("Agencies"),
        anyone_profile("Assessors"),
        anyone_profile("Advisors"),
        anyone_profile("FedRAMP"),
    ];
    assert(parties(list@) =~= audience());
    list
}

fn row_of(d: &ObligationDelta) -> (row: String)
    ensures
        row@ == impact_row(d@),
{
    let shifts = d.binding_shifts();
    assert(shifts@.len() == obligations::shifts_of(shifts@).len());
    assert(d@.added.len() == d.added@.len());
    let mut row = "| ".to_owned();
    row.push_str(d.profile.as_str());
    row.push_str(" | ");
    push_count(&mut row, d.added.len());
    row.push_str(" | ");
    push_count(&mut row, d.removed.len());
    row.push_str(" | ");
    push_count(&mut row, d.changed.len());
    row.push_str(" | ");
    if shifts.len() == 0 {
        row.push_str("— |\n");
    } else {
        push_count(&mut row, shifts.len());
        row.push_str(" |\n");
    }
    row
}

fn rows_for(before: &Doc, after: &Doc) -> (rows: Vec<String>)
    ensures
        text::texts(rows@) == impact_rows(before@, after@, audience()),
{
    let list = profiles();
    let ghost all = parties(list@);
    let mut rows: Vec<String> = Vec::new();
    let mut i: usize = 0;
    assert(text::texts(rows@) =~= impact_rows(before@, after@, all.take(0)));
    while i < list.len()
        invariant
            i <= list@.len(),
            all == parties(list@),
            text::texts(rows@) == impact_rows(before@, after@, all.take(i as int)),
        decreases list@.len() - i,
    {
        proof {
            assert(all.take(i + 1).drop_last() =~= all.take(i as int));
            assert(all.take(i + 1).last() == list@[i as int]@);
        }
        let d = obligations::delta(before, after, &list[i]);
        if !d.is_empty() {
            let row = row_of(&d);
            proof {
                text::lemma_texts_push(rows@, row);
            }
            rows.push(row);
        }
        i += 1;
    }
    assert(all.take(all.len() as int) =~= all);
    rows
}

fn push_impact(out: &mut String, before: Option<&Doc>, after: Option<&Doc>)
    ensures
        final(out)@ == impact_on(old(out)@, json::opt_json(before), json::opt_json(after)),
{
    match (before, after) {
        (Some(before), Some(after)) => {
            let rows = rows_for(before, after);
            assert(rows@.len() == text::texts(rows@).len());
            if rows.len() > 0 {
                out.push_str(
                    "## Who this affects\n\n| profile | added | removed | changed | binding shifts |\n|---|---|---|---|---|\n",
                );
                out.push_str(text::join_texts(&rows, "").as_str());
                out.push_str("\n");
            }
        },
        _ => {},
    }
}

// The change report.

pub open spec fn was_on(out: Seq<char>, p: Outlook) -> Seq<char> {
    match p.previous_upstream_version {
        Some(previous) => if previous != p.upstream_version {
            out + " (was `"@ + previous + "`)"@
        } else {
            out
        },
        None => out,
    }
}

pub open spec fn genesis_on(out: Seq<char>, p: Outlook) -> Seq<char> {
    if p.genesis {
        out
            + "Genesis version — the full FedRAMP ruleset, submission schemas, and marketplace snapshot are signed for the first time. Nothing to diff against.\n\n"@
    } else {
        out
    }
}

/// The whole change report.
pub open spec fn changes_text(p: Outlook) -> Seq<char> {
    let title = "# "@ + p.headline_text() + "\n\n| | |\n|---|---|\n| severity | `"@
        + p.severity.label_text() + "` |\n| upstream rules version | `"@ + p.upstream_version
        + "`"@;
    let digest = was_on(title, p) + " |\n| bundle digest | `"@ + p.bundle_sha256 + "` |\n"@;
    let pins = pins_on(digest, p.bundle.sources) + "\n"@;
    let attention = attention_on(genesis_on(pins, p), p.deltas);
    let affected = impact_on(
        attention,
        p.previous_rules,
        table::lookup(p.bundle.content, sources::RULES@),
    );
    drift_on(sections_on(affected, p.deltas), p.deltas)
}

pub fn changes_markdown(plan: &Plan) -> (out: String)
    requires
        all_pinnable(plan@.bundle.sources),
    ensures
        out@ == changes_text(plan@),
{
    let mut out = "# ".to_owned();
    out.push_str(plan.headline().as_str());
    out.push_str("\n\n| | |\n|---|---|\n| severity | `");
    out.push_str(plan.severity.label());
    out.push_str("` |\n| upstream rules version | `");
    out.push_str(plan.upstream_version.as_str());
    out.push_str("`");
    match &plan.previous_upstream_version {
        Some(previous) => {
            if !text::same_text(previous.as_str(), plan.upstream_version.as_str()) {
                out.push_str(" (was `");
                out.push_str(previous.as_str());
                out.push_str("`)");
            }
        },
        None => {},
    }
    out.push_str(" |\n| bundle digest | `");
    out.push_str(plan.bundle_sha256.as_str());
    out.push_str("` |\n");
    push_pins(&mut out, &plan.bundle.sources);
    out.push_str("\n");
    if plan.genesis {
        out.push_str(
            "Genesis version — the full FedRAMP ruleset, submission schemas, and marketplace snapshot are signed for the first time. Nothing to diff against.\n\n",
        );
    }
    push_attention(&mut out, &plan.deltas);
    push_impact(&mut out, plan.previous_rules.as_ref(), plan.bundle.section(sources::RULES));
    push_sections(&mut out, &plan.deltas);
    push_drift(&mut out, &plan.deltas);
    out
}

// Machine output.

pub open spec fn moved_flags_on(out: Seq<char>, deltas: Seq<Movement>) -> Seq<char>
    decreases deltas.len(),
{
    if deltas.len() == 0 {
        out
    } else {
        moved_flags_on(out, deltas.drop_last()) + deltas.last().source + "_changed="@ + bool_word(
            deltas.last().changed,
        ) + "\n"@
    }
}

/// `key=value` lines. `changed` says upstream moved; `committed` says a
/// version was signed. They diverge when a version is forced, and whoever
/// publishes on `changed` would throw the forced version away.
pub open spec fn outputs_text(p: Outlook, chain_version: Option<u64>) -> Seq<char> {
    let out = "changed="@ + bool_word(p.changed) + "\ncommitted="@ + bool_word(
        chain_version is Some,
    ) + "\nseverity="@ + p.severity.label_text() + "\ngenesis="@ + bool_word(p.genesis)
        + "\nupstream_version="@ + p.upstream_version + "\nbundle_sha256="@ + p.bundle_sha256
        + "\nheadline="@ + p.headline_text() + "\n"@;
    moved_flags_on(
        match chain_version {
            Some(version) => out + "chain_version="@ + text::decimal(version as nat) + "\n"@,
            None => out,
        },
        p.deltas,
    )
}

fn push_moved_flags(out: &mut String, deltas: &Vec<Delta>)
    ensures
        final(out)@ == moved_flags_on(old(out)@, plan::movements(deltas@)),
{
    let ghost start = out@;
    let ghost all = plan::movements(deltas@);
    let mut i: usize = 0;
    while i < deltas.len()
        invariant
            i <= deltas@.len(),
            all == plan::movements(deltas@),
            out@ == moved_flags_on(start, all.take(i as int)),
        decreases deltas@.len() - i,
    {
        proof {
            assert(all.take(i + 1).drop_last() =~= all.take(i as int));
            assert(all.take(i + 1).last() == deltas@[i as int]@);
        }
        out.push_str(deltas[i].source.as_str());
        out.push_str("_changed=");
        out.push_str(word(deltas[i].changed));
        out.push_str("\n");
        i += 1;
    }
    assert(all.take(all.len() as int) =~= all);
}

/// `key=value` lines for a workflow's outputs.
pub fn github_outputs(plan: &Plan, chain_version: Option<u64>) -> (out: String)
    ensures
        out@ == outputs_text(plan@, chain_version),
{
    let mut out = "changed=".to_owned();
    out.push_str(word(plan.changed));
    out.push_str("\ncommitted=");
    out.push_str(word(chain_version.is_some()));
    out.push_str("\nseverity=");
    out.push_str(plan.severity.label());
    out.push_str("\ngenesis=");
    out.push_str(word(plan.genesis));
    out.push_str("\nupstream_version=");
    out.push_str(plan.upstream_version.as_str());
    out.push_str("\nbundle_sha256=");
    out.push_str(plan.bundle_sha256.as_str());
    out.push_str("\nheadline=");
    out.push_str(plan.headline().as_str());
    out.push_str("\n");
    match chain_version {
        Some(version) => {
            out.push_str("chain_version=");
            out.push_str(text::decimal_text(version).as_str());
            out.push_str("\n");
        },
        None => {},
    }
    push_moved_flags(&mut out, &plan.deltas);
    out
}

/// Whether a run as loud as `severity` is to fail under a threshold.
pub open spec fn fails(severity: Severity, threshold: Option<Severity>) -> bool {
    match threshold {
        Some(t) => severity.rank() >= t.rank() && severity != Severity::Unchanged,
        None => false,
    }
}

pub fn should_fail(severity: Severity, threshold: Option<Severity>) -> (yes: bool)
    ensures
        yes == fails(severity, threshold),
{
    match threshold {
        Some(t) => severity.loudness() >= t.loudness() && severity.loudness() > 0,
        None => false,
    }
}

// Obligations.

pub open spec fn binding_count(duties: Seq<Duty>) -> nat
    decreases duties.len(),
{
    if duties.len() == 0 {
        0
    } else {
        binding_count(duties.drop_last()) + if obligations::binding_force(duties.last().force) {
            1nat
        } else {
            0nat
        }
    }
}

pub open spec fn duties_on(out: Seq<char>, duties: Seq<Duty>) -> Seq<char>
    decreases duties.len(),
{
    if duties.len() == 0 {
        out
    } else {
        let d = duties.last();
        duties_on(out, duties.drop_last()) + "- **"@ + d.id + "** "@ + d.force + " — "@
            + d.statement + "\n"@
    }
}

pub open spec fn obligations_text(party: Party, duties: Seq<Duty>) -> Seq<char> {
    duties_on(
        "# Obligations — "@ + party.label_text() + "\n\n"@ + text::decimal(duties.len())
            + " obligations, "@ + text::decimal(binding_count(duties)) + " binding\n\n"@,
        duties,
    )
}

pub fn count_binding(selected: &Vec<Obligation>) -> (n: usize)
    ensures
        n == binding_count(obligations::duties(selected@)),
        n <= selected@.len(),
{
    let ghost all = obligations::duties(selected@);
    let mut n: usize = 0;
    let mut i: usize = 0;
    while i < selected.len()
        invariant
            n <= i <= selected@.len(),
            all == obligations::duties(selected@),
            n == binding_count(all.take(i as int)),
        decreases selected@.len() - i,
    {
        proof {
            assert(all.take(i + 1).drop_last() =~= all.take(i as int));
            assert(all.take(i + 1).last() == selected@[i as int]@);
        }
        if selected[i].is_binding() {
            n += 1;
        }
        i += 1;
    }
    assert(all.take(all.len() as int) =~= all);
    n
}

/// What a profile is obliged to do, one rule to a line.
pub fn obligations_markdown(profile: &Profile, selected: &Vec<Obligation>) -> (out: String)
    ensures
        out@ == obligations_text(profile@, obligations::duties(selected@)),
{
    let mut out = "# Obligations — ".to_owned();
    out.push_str(profile.label().as_str());
    out.push_str("\n\n");
    push_count(&mut out, selected.len());
    out.push_str(" obligations, ");
    push_count(&mut out, count_binding(selected));
    out.push_str(" binding\n\n");
    let ghost start = out@;
    let ghost all = obligations::duties(selected@);
    let mut i: usize = 0;
    while i < selected.len()
        invariant
            i <= selected@.len(),
            all == obligations::duties(selected@),
            out@ == duties_on(start, all.take(i as int)),
        decreases selected@.len() - i,
    {
        let o = &selected[i];
        proof {
            assert(all.take(i + 1).drop_last() =~= all.take(i as int));
            assert(all.take(i + 1).last() == o@);
        }
        out.push_str("- **");
        out.push_str(o.id.as_str());
        out.push_str("** ");
        out.push_str(o.force.as_str());
        out.push_str(" — ");
        out.push_str(o.statement.as_str());
        out.push_str("\n");
        i += 1;
    }
    assert(all.take(all.len() as int) =~= all);
    out
}

// Laws.

proof fn lemma_no_rows(rules: Json, parties: Seq<Party>)
    ensures
        impact_rows(rules, rules, parties).len() == 0,
    decreases parties.len(),
{
    if parties.len() > 0 {
        lemma_no_rows(rules, parties.drop_last());
        obligations::law_same_duties_do_not_affect(rules, rules, parties.last());
    }
}

/// Where the rules did not move, a report says nothing of who is affected.
pub proof fn law_unmoved_rules_affect_no_one(out: Seq<char>, rules: Json)
    ensures
        impact_on(out, Some(rules), Some(rules)) == out,
{
    lemma_no_rows(rules, audience());
}

/// Where a run trips a threshold a louder one does too, and a run in which
/// nothing moved trips none.
pub proof fn law_threshold_is_monotone(a: Severity, b: Severity, threshold: Option<Severity>)
    requires
        a.rank() <= b.rank(),
    ensures
        fails(a, threshold) ==> fails(b, threshold),
        !fails(Severity::Unchanged, threshold),
{
}

/// Ids are listed one a line behind what stands before them.
pub proof fn lemma_ids_listed(out: Seq<char>, ids: Seq<Seq<char>>, i: int)
    ensures
        text::begins(ids_on(out, ids), out),
        0 <= i < ids.len() ==> text::holds(ids_on(out, ids), "- `"@ + ids[i] + "`\n"@),
    decreases ids.len(),
{
    if ids.len() == 0 {
        text::lemma_begins_self(out);
    } else {
        let front = ids.drop_last();
        lemma_ids_listed(out, front, i);
        let before = ids_on(out, front);
        let line = "- `"@ + ids[ids.len() - 1] + "`\n"@;
        assert(ids_on(out, ids) =~= before + line);
        text::lemma_begins_more(before, line, out);
        if i == ids.len() - 1 {
            text::lemma_holds_last(before, line);
        } else if 0 <= i < ids.len() {
            assert(front[i] == ids[i]);
            text::lemma_begins_self(before);
            text::lemma_begins_more(before, line, before);
            text::lemma_holds_begun(before + line, before, "- `"@ + ids[i] + "`\n"@);
        }
    }
}

// What a report shows, and where.

/// The ids of some duties.
pub open spec fn ids_of(duties: Seq<Duty>) -> Set<Seq<char>> {
    duties.map_values(|d: Duty| d.id).to_set()
}

proof fn lemma_ids_of(duties: Seq<Duty>, id: Seq<char>)
    ensures
        ids_of(duties).contains(id) <==> obligations::has_id(duties, id),
{
    let ids = duties.map_values(|d: Duty| d.id);
    if obligations::has_id(duties, id) {
        let i = choose|i: int| 0 <= i < duties.len() && (#[trigger] duties[i]).id == id;
        assert(ids[i] == id);
    }
    if ids.contains(id) {
        let i = choose|i: int| 0 <= i < ids.len() && ids[i] == id;
        assert(duties[i].id == id);
    }
}

proof fn lemma_count_of_ids(duties: Seq<Duty>)
    requires
        obligations::each_once(duties),
    ensures
        ids_of(duties).len() == duties.len(),
{
    let ids = duties.map_values(|d: Duty| d.id);
    assert forall|i: int, j: int| 0 <= i < ids.len() && 0 <= j < ids.len() && i != j implies ids[i]
        != ids[j] by {
        if i < j {
            assert(duties[i].id != duties[j].id);
        } else {
            assert(duties[j].id != duties[i].id);
        }
    }
    ids.unique_seq_to_set();
}

/// An impact counts as added each id that is owed after and was not before, and
/// as removed each that was owed before and no longer is.
pub proof fn law_impact_counts_ids(before: Json, after: Json, party: Party)
    ensures
        ({
            let old_ids = ids_of(obligations::selected(before, party));
            let new_ids = ids_of(obligations::selected(after, party));
            let found = obligations::impact(before, after, party);
            &&& found.added.len() == new_ids.difference(old_ids).len()
            &&& found.removed.len() == old_ids.difference(new_ids).len()
        }),
{
    let x = obligations::selected(before, party);
    let y = obligations::selected(after, party);
    let found = obligations::impact(before, after, party);
    obligations::law_impact_is_exact(before, after, party, Seq::empty());
    lemma_count_of_ids(found.added);
    lemma_count_of_ids(found.removed);
    assert forall|id: Seq<char>| ids_of(found.added).contains(id) == ids_of(y).difference(
        ids_of(x),
    ).contains(id) by {
        obligations::law_impact_is_exact(before, after, party, id);
        lemma_ids_of(x, id);
        lemma_ids_of(y, id);
        lemma_ids_of(found.added, id);
    }
    assert forall|id: Seq<char>| ids_of(found.removed).contains(id) == ids_of(x).difference(
        ids_of(y),
    ).contains(id) by {
        obligations::law_impact_is_exact(before, after, party, id);
        lemma_ids_of(x, id);
        lemma_ids_of(y, id);
        lemma_ids_of(found.removed, id);
    }
    assert(ids_of(found.added) =~= ids_of(y).difference(ids_of(x)));
    assert(ids_of(found.removed) =~= ids_of(x).difference(ids_of(y)));
}

/// A line of a table, out of what stands between its bars.
spec fn barred(cells: Seq<Seq<char>>) -> Seq<char> {
    text::join(cells, seq!['|'])
}

proof fn lemma_seven(c: Seq<Seq<char>>)
    requires
        c.len() == 7,
    ensures
        barred(c) == c[0] + seq!['|'] + c[1] + seq!['|'] + c[2] + seq!['|'] + c[3] + seq!['|']
            + c[4] + seq!['|'] + c[5] + seq!['|'] + c[6],
{
    let sep = seq!['|'];
    let c6 = c.drop_last();
    let c5 = c6.drop_last();
    let c4 = c5.drop_last();
    let c3 = c4.drop_last();
    let c2 = c3.drop_last();
    let c1 = c2.drop_last();
    assert(text::join(c1, sep) == c[0]);
    assert(text::join(c2, sep) == text::join(c1, sep) + sep + c[1]);
    assert(text::join(c3, sep) == text::join(c2, sep) + sep + c[2]);
    assert(text::join(c4, sep) == text::join(c3, sep) + sep + c[3]);
    assert(text::join(c5, sep) == text::join(c4, sep) + sep + c[4]);
    assert(text::join(c6, sep) == text::join(c5, sep) + sep + c[5]);
}

proof fn lemma_number_cell(n: nat)
    ensures
        !(seq![' '] + text::decimal(n) + seq![' ']).contains('|'),
{
    text::law_decimal_reads_back(n);
    let s = seq![' '] + text::decimal(n) + seq![' '];
    if s.contains('|') {
        let k = choose|k: int| 0 <= k < s.len() && s[k] == '|';
        if 1 <= k < s.len() - 1 {
            assert(s[k] == text::decimal(n)[k - 1]);
        }
    }
}

proof fn lemma_heading_cells()
    ensures
        text::split("| profile | added | removed | changed | binding shifts |\n"@, '|') == seq![
            ""@,
            " profile "@,
            " added "@,
            " removed "@,
            " changed "@,
            " binding shifts "@,
            "\n"@,
        ],
{
    let cells = seq![
        ""@,
        " profile "@,
        " added "@,
        " removed "@,
        " changed "@,
        " binding shifts "@,
        "\n"@,
    ];
    reveal_strlit("");
    reveal_strlit(" profile ");
    reveal_strlit(" added ");
    reveal_strlit(" removed ");
    reveal_strlit(" changed ");
    reveal_strlit(" binding shifts ");
    reveal_strlit("\n");
    reveal_strlit("| profile | added | removed | changed | binding shifts |\n");
    lemma_seven(cells);
    assert("| profile | added | removed | changed | binding shifts |\n"@ =~= barred(cells));
    assert(!""@.contains('|'));
    assert(!" profile "@.contains('|'));
    assert(!" added "@.contains('|'));
    assert(!" removed "@.contains('|'));
    assert(!" changed "@.contains('|'));
    assert(!" binding shifts "@.contains('|'));
    assert(!"\n"@.contains('|'));
    assert forall|i: int| 0 <= i < cells.len() implies !(#[trigger] cells[i]).contains('|') by {}
    text::law_split_undoes_join(cells, '|');
}

proof fn lemma_column_names()
    ensures
        ""@.len() == 0,
        " profile "@.len() == 9,
        " added "@.len() == 7,
        " removed "@.len() == 9,
        " changed "@.len() == 9,
        " binding shifts "@.len() == 16,
        "\n"@.len() == 1,
        " profile "@ != " removed "@,
        " profile "@ != " changed "@,
        " removed "@ != " changed "@,
{
    reveal_strlit("");
    reveal_strlit(" profile ");
    reveal_strlit(" added ");
    reveal_strlit(" removed ");
    reveal_strlit(" changed ");
    reveal_strlit(" binding shifts ");
    reveal_strlit("\n");
    assert(" profile "@[1] == 'p');
    assert(" removed "@[1] == 'r');
    assert(" changed "@[1] == 'c');
}

spec fn row_cells(d: Impact) -> Seq<Seq<char>> {
    let space = seq![' '];
    let shifts = obligations::binding_only(d.changed).len();
    seq![
        Seq::<char>::empty(),
        space + d.profile + space,
        space + text::decimal(d.added.len()) + space,
        space + text::decimal(d.removed.len()) + space,
        space + text::decimal(d.changed.len()) + space,
        if shifts == 0 {
            seq![' ', '—', ' ']
        } else {
            space + text::decimal(shifts) + space
        },
        seq!['\n'],
    ]
}

proof fn lemma_next_cell(x: Seq<char>, cell: Seq<char>, next: Seq<char>)
    ensures
        x + seq!['|'] + (seq![' '] + cell) + (seq![' '] + seq!['|'] + seq![' ']) + next == x + seq![
            '|',
        ] + (seq![' '] + cell + seq![' ']) + seq!['|'] + (seq![' '] + next),
{
    assert(x + seq!['|'] + (seq![' '] + cell) + (seq![' '] + seq!['|'] + seq![' ']) + next =~= x
        + seq!['|'] + (seq![' '] + cell + seq![' ']) + seq!['|'] + (seq![' '] + next));
}

proof fn lemma_last_cell(x: Seq<char>, cell: Seq<char>)
    ensures
        x + seq!['|'] + (seq![' '] + cell) + (seq![' '] + seq!['|'] + seq!['\n']) == x + seq!['|'] + (
        seq![' '] + cell + seq![' ']) + seq!['|'] + seq!['\n'],
{
    assert(x + seq!['|'] + (seq![' '] + cell) + (seq![' '] + seq!['|'] + seq!['\n']) =~= x + seq![
        '|',
    ] + (seq![' '] + cell + seq![' ']) + seq!['|'] + seq!['\n']);
}

proof fn lemma_row_barred(d: Impact)
    ensures
        impact_row(d) == barred(row_cells(d)),
{
    let bar = seq!['|'];
    let space = seq![' '];
    let shifts = obligations::binding_only(d.changed).len();
    let p = d.profile;
    let a = text::decimal(d.added.len());
    let r = text::decimal(d.removed.len());
    let c = text::decimal(d.changed.len());
    let dash = seq!['—'];
    let s = if shifts == 0 {
        dash
    } else {
        text::decimal(shifts)
    };
    assert("| "@ == bar + space && " | "@ == space + bar + space && " |\n"@ == space + bar + seq![
        '\n',
    ] && "— |\n"@ == dash + (space + bar + seq!['\n'])) by {
        reveal_strlit("| ");
        reveal_strlit(" | ");
        reveal_strlit("— |\n");
        reveal_strlit(" |\n");
        assert("| "@ =~= bar + space);
        assert(" | "@ =~= space + bar + space);
        assert(" |\n"@ =~= space + bar + seq!['\n']);
        assert("— |\n"@ =~= dash + (space + bar + seq!['\n']));
    }
    let x0 = Seq::<char>::empty();
    let x1 = x0 + bar + (space + p + space);
    let x2 = x1 + bar + (space + a + space);
    let x3 = x2 + bar + (space + r + space);
    let x4 = x3 + bar + (space + c + space);
    assert("| "@ + p =~= x0 + bar + (space + p));
    lemma_next_cell(x0, p, a);
    lemma_next_cell(x1, a, r);
    lemma_next_cell(x2, r, c);
    lemma_next_cell(x3, c, s);
    lemma_last_cell(x4, s);
    let h4 = "| "@ + p + " | "@ + a + " | "@ + r + " | "@ + c;
    assert(h4 == x3 + bar + (space + c));
    assert(h4 + " | "@ + s == x4 + bar + (space + s));
    assert(h4 + " | "@ + s + " |\n"@ == x4 + bar + (space + s + space) + bar + seq!['\n']);
    assert(space + dash + space =~= seq![' ', '—', ' ']);
    lemma_seven(row_cells(d));
    assert(barred(row_cells(d)) == x4 + bar + (space + s + space) + bar + seq!['\n']);
    if shifts == 0 {
        let h5 = h4 + " | "@;
        assert(h5 + (dash + " |\n"@) =~= h5 + dash + " |\n"@);
    }
}

proof fn lemma_row_cells(d: Impact)
    requires
        !d.profile.contains('|'),
    ensures
        text::split(impact_row(d), '|') == row_cells(d),
{
    let cells = row_cells(d);
    lemma_row_barred(d);
    lemma_number_cell(d.added.len());
    lemma_number_cell(d.removed.len());
    lemma_number_cell(d.changed.len());
    lemma_number_cell(obligations::binding_only(d.changed).len());
    assert(!cells[1].contains('|')) by {
        if cells[1].contains('|') {
            let k = choose|k: int| 0 <= k < cells[1].len() && cells[1][k] == '|';
            assert(d.profile[k - 1] == '|');
        }
    }
    assert(!seq![' ', '—', ' '].contains('|'));
    assert(!cells[0].contains('|'));
    assert(!cells[6].contains('|'));
    assert forall|k: int| 0 <= k < cells.len() implies !(#[trigger] cells[k]).contains('|') by {}
    text::law_split_undoes_join(cells, '|');
}

/// A row of the table of who is affected has a cell under each column of its
/// heading: under `added` the number of duties added, under `removed` of those
/// removed, under `changed` of changes, and under `binding shifts` of those
/// among them that bind or release, or a dash where there are none.
pub proof fn law_impact_row_fills_its_columns(d: Impact, i: int)
    requires
        !d.profile.contains('|'),
    ensures
        ({
            let heading = text::split(
                "| profile | added | removed | changed | binding shifts |\n"@,
                '|',
            );
            let row = text::split(impact_row(d), '|');
            let shifts = obligations::binding_only(d.changed).len();
            &&& row.len() == heading.len()
            &&& 0 <= i < row.len() && heading[i] == " profile "@ ==> row[i] == seq![' ']
                + d.profile + seq![' ']
            &&& 0 <= i < row.len() && heading[i] == " added "@ ==> row[i] == seq![' ']
                + text::decimal(d.added.len()) + seq![' ']
            &&& 0 <= i < row.len() && heading[i] == " removed "@ ==> row[i] == seq![' ']
                + text::decimal(d.removed.len()) + seq![' ']
            &&& 0 <= i < row.len() && heading[i] == " changed "@ ==> row[i] == seq![' ']
                + text::decimal(d.changed.len()) + seq![' ']
            &&& 0 <= i < row.len() && heading[i] == " binding shifts "@ && shifts > 0 ==> row[i]
                == seq![' '] + text::decimal(shifts) + seq![' ']
            &&& 0 <= i < row.len() && heading[i] == " binding shifts "@ && shifts == 0 ==> row[i]
                == seq![' ', '—', ' ']
            &&& heading[1] == " profile "@ && heading[2] == " added "@ && heading[3]
                == " removed "@ && heading[4] == " changed "@ && heading[5] == " binding shifts "@
        }),
{
    lemma_heading_cells();
    lemma_row_cells(d);
    lemma_column_names();
}

/// The row of a party counts, under `added`, the obligations that the new
/// ruleset has for it and the old one lacks, and under `removed` those that the
/// old one has and the new one lacks.
pub proof fn law_impact_row_counts_what_moved(before: Json, after: Json, party: Party)
    requires
        !party.label_text().contains('|'),
    ensures
        ({
            let heading = text::split(
                "| profile | added | removed | changed | binding shifts |\n"@,
                '|',
            );
            let row = text::split(impact_row(obligations::impact(before, after, party)), '|');
            let old_ids = ids_of(obligations::selected(before, party));
            let new_ids = ids_of(obligations::selected(after, party));
            &&& row.len() == heading.len()
            &&& forall|i: int|
                0 <= i < row.len() && #[trigger] heading[i] == " added "@ ==> row[i] == seq![' ']
                    + text::decimal(new_ids.difference(old_ids).len()) + seq![' ']
            &&& forall|i: int|
                0 <= i < row.len() && #[trigger] heading[i] == " removed "@ ==> row[i] == seq![' ']
                    + text::decimal(old_ids.difference(new_ids).len()) + seq![' ']
        }),
{
    let d = obligations::impact(before, after, party);
    law_impact_counts_ids(before, after, party);
    law_impact_row_fills_its_columns(d, 0);
    let heading = text::split("| profile | added | removed | changed | binding shifts |\n"@, '|');
    let row = text::split(impact_row(d), '|');
    assert forall|i: int| 0 <= i < row.len() && #[trigger] heading[i] == " added "@ implies row[i]
        == seq![' '] + text::decimal(d.added.len()) + seq![' '] by {
        law_impact_row_fills_its_columns(d, i);
    }
    assert forall|i: int| 0 <= i < row.len() && #[trigger] heading[i] == " removed "@ implies row[i]
        == seq![' '] + text::decimal(d.removed.len()) + seq![' '] by {
        law_impact_row_fills_its_columns(d, i);
    }
}

proof fn lemma_rows(before: Json, after: Json, parties: Seq<Party>, i: int)
    requires
        0 <= i < parties.len(),
    ensures
        !obligations::impact(before, after, parties[i]).empty() ==> impact_rows(
            before,
            after,
            parties,
        ).contains(impact_row(obligations::impact(before, after, parties[i]))),
        forall|k: int|
            #![trigger impact_rows(before, after, parties)[k]]
            0 <= k < impact_rows(before, after, parties).len() ==> exists|j: int|
                0 <= j < parties.len() && !obligations::impact(
                    before,
                    after,
                    #[trigger] parties[j],
                ).empty() && impact_rows(before, after, parties)[k] == impact_row(
                    obligations::impact(before, after, parties[j]),
                ),
    decreases parties.len(),
{
    let front = parties.drop_last();
    let rest = impact_rows(before, after, front);
    let now = impact_rows(before, after, parties);
    if i < front.len() {
        lemma_rows(before, after, front, i);
        assert(front[i] == parties[i]);
        let row = impact_row(obligations::impact(before, after, parties[i]));
        if rest.contains(row) {
            let k = choose|k: int| 0 <= k < rest.len() && rest[k] == row;
            assert(now[k] == row);
        }
    } else {
        if front.len() > 0 {
            lemma_rows(before, after, front, 0);
        }
        if !obligations::impact(before, after, parties[i]).empty() {
            assert(now[now.len() - 1] == impact_row(
                obligations::impact(before, after, parties[i]),
            ));
        }
    }
    assert forall|k: int| #![trigger now[k]] 0 <= k < now.len() implies exists|j: int|
        0 <= j < parties.len() && !obligations::impact(before, after, #[trigger] parties[j]).empty()
            && now[k] == impact_row(obligations::impact(before, after, parties[j])) by {
        if k < rest.len() {
            assert(now[k] == rest[k]);
            let j = choose|j: int|
                0 <= j < front.len() && !obligations::impact(
                    before,
                    after,
                    #[trigger] front[j],
                ).empty() && rest[k] == impact_row(obligations::impact(before, after, front[j]));
            assert(parties[j] == front[j]);
        } else {
            assert(parties[parties.len() - 1] == parties.last());
        }
    }
}

/// Those who are told how a change affects them are providers of each class and
/// each certification type, agencies, assessors, advisors and FedRAMP itself.
pub proof fn law_audience_is_everyone(class: Seq<char>, cert_type: Seq<char>, role: Seq<char>)
    ensures
        audience().len() == 12,
        (class == "A"@ || class == "B"@ || class == "C"@ || class == "D"@) && (cert_type == "20x"@
            || cert_type == "Rev5"@) ==> audience().contains(
            (Party {
                role: "Providers"@,
                class: Some(class),
                cert_type: Some(cert_type),
                path: None,
            }),
        ),
        role == "Agencies"@ || role == "Assessors"@ || role == "Advisors"@ || role == "FedRAMP"@
            ==> audience().contains((Party { role, class: None, cert_type: None, path: None })),
{
    let a = audience();
    assert(a[0] == provider("A"@, "20x"@));
    assert(a[1] == provider("A"@, "Rev5"@));
    assert(a[2] == provider("B"@, "20x"@));
    assert(a[3] == provider("B"@, "Rev5"@));
    assert(a[4] == provider("C"@, "20x"@));
    assert(a[5] == provider("C"@, "Rev5"@));
    assert(a[6] == provider("D"@, "20x"@));
    assert(a[7] == provider("D"@, "Rev5"@));
    assert(a[8] == anyone("Agencies"@));
    assert(a[9] == anyone("Assessors"@));
    assert(a[10] == anyone("Advisors"@));
    assert(a[11] == anyone("FedRAMP"@));
}

proof fn lemma_joined_rows(rows: Seq<Seq<char>>, i: int)
    requires
        0 <= i < rows.len(),
    ensures
        text::holds(text::join(rows, ""@), rows[i]),
    decreases rows.len(),
{
    reveal_strlit("");
    if rows.len() == 1 {
        text::lemma_holds_last(Seq::empty(), rows[0]);
        assert(Seq::<char>::empty() + rows[0] =~= rows[0]);
    } else {
        let front = rows.drop_last();
        let before = text::join(front, ""@);
        assert(text::join(rows, ""@) =~= before + rows[rows.len() - 1]);
        if i < front.len() {
            lemma_joined_rows(front, i);
            assert(front[i] == rows[i]);
            text::lemma_begins_self(before);
            text::lemma_begins_more(before, rows[rows.len() - 1], before);
            text::lemma_holds_begun(before + rows[rows.len() - 1], before, rows[i]);
        } else {
            text::lemma_holds_last(before, rows[i]);
        }
    }
}

/// Whoever in the audience is affected has a row under the heading, and where
/// nobody is there is no such section.
pub proof fn law_affected_are_told(out: Seq<char>, before: Json, after: Json, i: int)
    requires
        0 <= i < audience().len(),
    ensures
        ({
            let d = obligations::impact(before, after, audience()[i]);
            let page = impact_on(out, Some(before), Some(after));
            let heading = "| profile | added | removed | changed | binding shifts |\n"@;
            &&& !d.empty() ==> text::begins(page, out + "## Who this affects\n\n"@ + heading)
            &&& !d.empty() ==> text::holds(page, impact_row(d))
            &&& page != out ==> exists|j: int|
                0 <= j < audience().len() && !obligations::impact(
                    before,
                    after,
                    #[trigger] audience()[j],
                ).empty()
        }),
{
    lemma_affected(out, before, after, audience(), i);
}

/// The section for some parties.
spec fn told(out: Seq<char>, before: Json, after: Json, parties: Seq<Party>) -> Seq<char> {
    let rows = impact_rows(before, after, parties);
    if rows.len() == 0 {
        out
    } else {
        out
            + "## Who this affects\n\n| profile | added | removed | changed | binding shifts |\n|---|---|---|---|---|\n"@
            + text::join(rows, ""@) + "\n"@
    }
}

proof fn lemma_affected(out: Seq<char>, before: Json, after: Json, parties: Seq<Party>, i: int)
    requires
        0 <= i < parties.len(),
    ensures
        ({
            let d = obligations::impact(before, after, parties[i]);
            let page = told(out, before, after, parties);
            let heading = "| profile | added | removed | changed | binding shifts |\n"@;
            &&& !d.empty() ==> text::begins(page, out + "## Who this affects\n\n"@ + heading)
            &&& !d.empty() ==> text::holds(page, impact_row(d))
            &&& page != out ==> exists|j: int|
                0 <= j < parties.len() && !obligations::impact(
                    before,
                    after,
                    #[trigger] parties[j],
                ).empty()
        }),
{
    let d = obligations::impact(before, after, parties[i]);
    let page = told(out, before, after, parties);
    let rows = impact_rows(before, after, parties);
    lemma_rows(before, after, parties, i);
    let row = impact_row(d);
    if !d.empty() {
        let k = choose|k: int| 0 <= k < rows.len() && rows[k] == row;
        assert(rows.len() > 0);
        lemma_joined_rows(rows, k);
        lemma_told_page(out, text::join(rows, ""@), row);
    }
    if page != out {
        assert(rows.len() > 0);
        assert(rows[0] == rows[0]);
    }
}

proof fn lemma_told_page(out: Seq<char>, body: Seq<char>, row: Seq<char>)
    requires
        text::holds(body, row),
    ensures
        ({
            let page = out
                + "## Who this affects\n\n| profile | added | removed | changed | binding shifts |\n|---|---|---|---|---|\n"@
                + body + "\n"@;
            &&& text::holds(page, row)
            &&& text::begins(
                page,
                out + "## Who this affects\n\n"@
                    + "| profile | added | removed | changed | binding shifts |\n"@,
            )
        }),
{
    lemma_table_heading();
    let a = "## Who this affects\n\n"@;
    let b = "| profile | added | removed | changed | binding shifts |\n"@;
    lemma_page(out, a + b, "|---|---|---|---|---|\n"@, body, row);
    assert(out + (a + b) =~= out + a + b);
}

proof fn lemma_table_heading()
    ensures
        "## Who this affects\n\n| profile | added | removed | changed | binding shifts |\n|---|---|---|---|---|\n"@
            == "## Who this affects\n\n"@
            + "| profile | added | removed | changed | binding shifts |\n"@
            + "|---|---|---|---|---|\n"@,
{
    reveal_strlit("## Who this affects\n\n| profile | added | removed | changed | binding shifts |\n|---|---|---|---|---|\n");
    reveal_strlit("## Who this affects\n\n");
    reveal_strlit("| profile | added | removed | changed | binding shifts |\n");
    reveal_strlit("|---|---|---|---|---|\n");
    assert("## Who this affects\n\n| profile | added | removed | changed | binding shifts |\n|---|---|---|---|---|\n"@
        =~= "## Who this affects\n\n"@
        + "| profile | added | removed | changed | binding shifts |\n"@
        + "|---|---|---|---|---|\n"@);
}

proof fn lemma_page(out: Seq<char>, top: Seq<char>, rule: Seq<char>, body: Seq<char>, row: Seq<char>)
    requires
        text::holds(body, row),
    ensures
        text::holds(out + (top + rule) + body + "\n"@, row),
        text::begins(out + (top + rule) + body + "\n"@, out + top),
{
    let page = out + (top + rule) + body + "\n"@;
    let j = choose|j: int| text::stands_at(body, row, j);
    let before_row = out + (top + rule) + body.take(j);
    let after_row = body.skip(j + row.len()) + "\n"@;
    assert(body =~= body.take(j) + body.subrange(j, j + row.len()) + body.skip(j + row.len()));
    assert(page =~= before_row + row + after_row);
    text::lemma_holds_within(before_row, row, after_row);
    text::lemma_begins_self(out + top);
    text::lemma_begins_more(out + top, rule + body + "\n"@, out + top);
    assert(page =~= out + top + (rule + body + "\n"@));
}

proof fn lemma_more_begins(out: Seq<char>, n: nat)
    ensures
        text::begins(more_on(out, n), out),
        n > MAX_LISTED ==> text::holds(
            more_on(out, n),
            "- …and "@ + text::decimal((n - MAX_LISTED) as nat) + " more\n"@,
        ),
        n <= MAX_LISTED ==> more_on(out, n) == out,
{
    let line = "- …and "@ + text::decimal((n - MAX_LISTED) as nat) + " more\n"@;
    text::lemma_begins_self(out);
    if n > MAX_LISTED {
        assert(more_on(out, n) =~= out + line);
        text::lemma_begins_more(out, line, out);
        text::lemma_holds_last(out, line);
    }
}

/// A list stands under its own label, names its ids in order up to the limit, and
/// says how many more there are.
pub proof fn law_lists_stand_under_their_label(
    out: Seq<char>,
    label: Seq<char>,
    ids: Seq<Seq<char>>,
    i: int,
)
    requires
        0 <= i < ids.len(),
    ensures
        text::begins(list_on(out, label, ids), out + "**"@ + label + "**\n\n- `"@ + ids[0] + "`\n"@),
        i < MAX_LISTED ==> text::holds(list_on(out, label, ids), "- `"@ + ids[i] + "`\n"@),
        ids.len() > MAX_LISTED ==> text::holds(
            list_on(out, label, ids),
            "- …and "@ + text::decimal((ids.len() - MAX_LISTED) as nat) + " more\n"@,
        ),
{
    reveal_strlit("**\n\n");
    reveal_strlit("**\n\n- `");
    reveal_strlit("- `");
    let top = out + "**"@ + label + "**\n\n"@;
    let few = ids.take(shown(ids.len()));
    let lines = ids_on(top, few);
    lemma_first_id(top, few);
    lemma_ids_listed(top, few, i);
    lemma_more_begins(lines, ids.len());
    let page = list_on(out, label, ids);
    let cut = more_on(lines, ids.len());
    text::lemma_begins_self(cut);
    text::lemma_begins_more(cut, "\n"@, cut);
    text::lemma_begins_through(page, cut, lines);
    assert(few[0] == ids[0]);
    let first = top + "- `"@ + ids[0] + "`\n"@;
    assert(first =~= out + "**"@ + label + "**\n\n- `"@ + ids[0] + "`\n"@);
    text::lemma_begins_through(page, lines, first);
    if i < MAX_LISTED {
        assert(few[i] == ids[i]);
        text::lemma_holds_begun(page, lines, "- `"@ + ids[i] + "`\n"@);
    }
    if ids.len() > MAX_LISTED {
        text::lemma_holds_begun(
            page,
            cut,
            "- …and "@ + text::decimal((ids.len() - MAX_LISTED) as nat) + " more\n"@,
        );
    }
}

proof fn lemma_first_id(out: Seq<char>, ids: Seq<Seq<char>>)
    requires
        ids.len() > 0,
    ensures
        text::begins(ids_on(out, ids), out + "- `"@ + ids[0] + "`\n"@),
    decreases ids.len(),
{
    let front = ids.drop_last();
    if front.len() == 0 {
        assert(ids_on(out, front) == out);
        text::lemma_begins_self(out + "- `"@ + ids[0] + "`\n"@);
    } else {
        lemma_first_id(out, front);
        assert(front[0] == ids[0]);
        let before = ids_on(out, front);
        let line = "- `"@ + ids.last() + "`\n"@;
        assert(ids_on(out, ids) =~= before + line);
        text::lemma_begins_more(before, line, out + "- `"@ + ids[0] + "`\n"@);
    }
}

/// What moved is shown with its old value to the left of the arrow and its new
/// value to the right.
pub proof fn law_edit_shows_from_and_to(out: Seq<char>, e: Edit, i: int)
    ensures
        text::begins(
            edit_on(out, e),
            out + "- `"@ + e.id + "` — "@ + text::join(field_names(e.fields), ", "@) + "\n"@,
        ),
        0 <= i < e.fields.len() && i < MAX_FIELDS ==> text::holds(
            edit_on(out, e),
            "  - `"@ + e.fields[i].field + "`: `"@ + e.fields[i].from + "` → `"@ + e.fields[i].to
                + "`\n"@,
        ),
        field_names(e.fields).len() == e.fields.len(),
        0 <= i < e.fields.len() ==> field_names(e.fields)[i] == e.fields[i].field,
{
    let top = out + "- `"@ + e.id + "` — "@ + text::join(field_names(e.fields), ", "@) + "\n"@;
    let few = e.fields.take(
        if e.fields.len() > MAX_FIELDS {
            MAX_FIELDS as int
        } else {
            e.fields.len() as int
        },
    );
    lemma_fields_shown(top, few, i);
    if 0 <= i < few.len() {
        assert(few[i] == e.fields[i]);
    }
}

proof fn lemma_fields_shown(out: Seq<char>, fields: Seq<FieldMove>, i: int)
    ensures
        text::begins(fields_on(out, fields), out),
        0 <= i < fields.len() ==> text::holds(
            fields_on(out, fields),
            "  - `"@ + fields[i].field + "`: `"@ + fields[i].from + "` → `"@ + fields[i].to + "`\n"@,
        ),
    decreases fields.len(),
{
    if fields.len() == 0 {
        text::lemma_begins_self(out);
    } else {
        let front = fields.drop_last();
        let f = fields[fields.len() - 1];
        lemma_fields_shown(out, front, i);
        let before = fields_on(out, front);
        let line = "  - `"@ + f.field + "`: `"@ + f.from + "` → `"@ + f.to + "`\n"@;
        assert(fields_on(out, fields) =~= before + line);
        text::lemma_begins_more(before, line, out);
        if i == fields.len() - 1 {
            text::lemma_holds_last(before, line);
        } else if 0 <= i < fields.len() {
            assert(front[i] == fields[i]);
            text::lemma_begins_self(before);
            text::lemma_begins_more(before, line, before);
            text::lemma_holds_begun(
                before + line,
                before,
                "  - `"@ + fields[i].field + "`: `"@ + fields[i].from + "` → `"@ + fields[i].to
                    + "`\n"@,
            );
        }
    }
}

proof fn lemma_edits_shown(out: Seq<char>, edits: Seq<Edit>, i: int, k: int)
    ensures
        text::begins(edits_on(out, edits), out),
        0 <= i < edits.len() ==> text::holds(
            edits_on(out, edits),
            "- `"@ + edits[i].id + "` — "@ + text::join(field_names(edits[i].fields), ", "@) + "\n"@,
        ),
        0 <= i < edits.len() && 0 <= k < edits[i].fields.len() && k < MAX_FIELDS ==> text::holds(
            edits_on(out, edits),
            "  - `"@ + edits[i].fields[k].field + "`: `"@ + edits[i].fields[k].from + "` → `"@
                + edits[i].fields[k].to + "`\n"@,
        ),
    decreases edits.len(),
{
    if edits.len() == 0 {
        text::lemma_begins_self(out);
    } else {
        let front = edits.drop_last();
        let e = edits[edits.len() - 1];
        lemma_edits_shown(out, front, i, k);
        let before = edits_on(out, front);
        let page = edits_on(out, edits);
        law_edit_shows_from_and_to(before, e, k);
        let line = "- `"@ + e.id + "` — "@ + text::join(field_names(e.fields), ", "@) + "\n"@;
        let top = before + line;
        assert(top =~= before + "- `"@ + e.id + "` — "@ + text::join(field_names(e.fields), ", "@)
            + "\n"@);
        text::lemma_begins_self(before);
        text::lemma_begins_more(before, line, before);
        text::lemma_begins_through(page, top, before);
        text::lemma_begins_through(page, before, out);
        if i == edits.len() - 1 {
            text::lemma_holds_last(before, line);
            text::lemma_holds_begun(page, top, line);
        } else if 0 <= i < edits.len() {
            assert(front[i] == edits[i]);
            text::lemma_holds_begun(
                page,
                before,
                "- `"@ + edits[i].id + "` — "@ + text::join(field_names(edits[i].fields), ", "@)
                    + "\n"@,
            );
            if 0 <= k < edits[i].fields.len() && k < MAX_FIELDS {
                text::lemma_holds_begun(
                    page,
                    before,
                    "  - `"@ + edits[i].fields[k].field + "`: `"@ + edits[i].fields[k].from
                        + "` → `"@ + edits[i].fields[k].to + "`\n"@,
                );
            }
        }
    }
}

proof fn lemma_list_begins(out: Seq<char>, label: Seq<char>, ids: Seq<Seq<char>>)
    ensures
        text::begins(list_on(out, label, ids), out),
{
    text::lemma_begins_self(out);
    if ids.len() > 0 {
        law_lists_stand_under_their_label(out, label, ids, 0);
        let rest = "**"@ + label + "**\n\n- `"@ + ids[0] + "`\n"@;
        let top = out + "**"@ + label + "**\n\n- `"@ + ids[0] + "`\n"@;
        assert(top =~= out + rest);
        text::lemma_begins_more(out, rest, out);
        text::lemma_begins_through(list_on(out, label, ids), top, out);
    }
}

proof fn lemma_modified_shown(out: Seq<char>, edits: Seq<Edit>, i: int, k: int)
    ensures
        text::begins(modified_on(out, edits), out),
        0 <= i < edits.len() && i < MAX_LISTED ==> text::holds(
            modified_on(out, edits),
            "- `"@ + edits[i].id + "` — "@ + text::join(field_names(edits[i].fields), ", "@) + "\n"@,
        ),
        0 <= i < edits.len() && i < MAX_LISTED && 0 <= k < edits[i].fields.len() && k < MAX_FIELDS
            ==> text::holds(
            modified_on(out, edits),
            "  - `"@ + edits[i].fields[k].field + "`: `"@ + edits[i].fields[k].from + "` → `"@
                + edits[i].fields[k].to + "`\n"@,
        ),
        edits.len() > 0 ==> text::begins(modified_on(out, edits), out + "**Modified**\n\n"@),
{
    text::lemma_begins_self(out);
    if edits.len() > 0 {
        let top = out + "**Modified**\n\n"@;
        let few = edits.take(shown(edits.len()));
        let lines = edits_on(top, few);
        let cut = more_on(lines, edits.len());
        let page = modified_on(out, edits);
        lemma_edits_shown(top, few, i, k);
        lemma_more_begins(lines, edits.len());
        text::lemma_begins_self(cut);
        text::lemma_begins_more(cut, "\n"@, cut);
        text::lemma_begins_through(page, cut, lines);
        text::lemma_begins_through(page, lines, top);
        text::lemma_begins_more(out, "**Modified**\n\n"@, out);
        text::lemma_begins_through(page, top, out);
        if 0 <= i < edits.len() && i < MAX_LISTED {
            assert(few[i] == edits[i]);
            text::lemma_holds_begun(
                page,
                lines,
                "- `"@ + edits[i].id + "` — "@ + text::join(field_names(edits[i].fields), ", "@)
                    + "\n"@,
            );
            if 0 <= k < edits[i].fields.len() && k < MAX_FIELDS {
                text::lemma_holds_begun(
                    page,
                    lines,
                    "  - `"@ + edits[i].fields[k].field + "`: `"@ + edits[i].fields[k].from
                        + "` → `"@ + edits[i].fields[k].to + "`\n"@,
                );
            }
        }
    }
}

proof fn lemma_counts_shown(out: Seq<char>, counts: Seq<(Seq<char>, usize)>, i: int)
    ensures
        text::begins(count_rows_on(out, counts), out),
        0 <= i < counts.len() ==> text::holds(
            count_rows_on(out, counts),
            "- `"@ + counts[i].0 + "`: "@ + text::decimal(counts[i].1 as nat) + "\n"@,
        ),
    decreases counts.len(),
{
    if counts.len() == 0 {
        text::lemma_begins_self(out);
    } else {
        let front = counts.drop_last();
        let c = counts[counts.len() - 1];
        lemma_counts_shown(out, front, i);
        let before = count_rows_on(out, front);
        let line = "- `"@ + c.0 + "`: "@ + text::decimal(c.1 as nat) + "\n"@;
        assert(count_rows_on(out, counts) =~= before + line);
        text::lemma_begins_more(before, line, out);
        if i == counts.len() - 1 {
            text::lemma_holds_last(before, line);
        } else if 0 <= i < counts.len() {
            assert(front[i] == counts[i]);
            text::lemma_begins_self(before);
            text::lemma_begins_more(before, line, before);
            text::lemma_holds_begun(
                before + line,
                before,
                "- `"@ + counts[i].0 + "`: "@ + text::decimal(counts[i].1 as nat) + "\n"@,
            );
        }
    }
}

/// The section of a source that moved opens with its severity and the numbers of
/// what was added, removed and modified, in that order; it lists the added ids
/// under `Added` and the removed ones under `Removed`, and shows what was
/// modified and the counts.
pub proof fn law_section_shows_its_movement(out: Seq<char>, d: Movement, i: int, k: int)
    requires
        d.changed,
    ensures
        ({
            let page = section_on(out, d);
            let head = out + "## "@ + d.source + " — "@ + d.severity.label_text() + " ("@
                + text::decimal(d.added.len()) + " added, "@ + text::decimal(d.removed.len())
                + " removed, "@ + text::decimal(d.modified.len()) + " modified)\n\n"@;
            &&& text::begins(page, head)
            &&& d.added.len() > 0 ==> text::begins(
                page,
                head + "**Added**\n\n- `"@ + d.added[0] + "`\n"@,
            )
            &&& 0 <= i < d.added.len() && i < MAX_LISTED ==> text::holds(
                page,
                "- `"@ + d.added[i] + "`\n"@,
            )
            &&& d.removed.len() > 0 ==> text::holds(
                page,
                "**Removed**\n\n- `"@ + d.removed[0] + "`\n"@,
            )
            &&& 0 <= i < d.removed.len() && i < MAX_LISTED ==> text::holds(
                page,
                "- `"@ + d.removed[i] + "`\n"@,
            )
            &&& 0 <= i < d.modified.len() && i < MAX_LISTED ==> text::holds(
                page,
                "- `"@ + d.modified[i].id + "` — "@ + text::join(
                    field_names(d.modified[i].fields),
                    ", "@,
                ) + "\n"@,
            )
            &&& 0 <= i < d.modified.len() && i < MAX_LISTED && 0 <= k < d.modified[i].fields.len()
                && k < MAX_FIELDS ==> text::holds(
                page,
                "  - `"@ + d.modified[i].fields[k].field + "`: `"@ + d.modified[i].fields[k].from
                    + "` → `"@ + d.modified[i].fields[k].to + "`\n"@,
            )
            &&& 0 <= i < d.counts.len() ==> text::holds(
                page,
                "- `"@ + d.counts[i].0 + "`: "@ + text::decimal(d.counts[i].1 as nat) + "\n"@,
            )
        }),
{
    let page = section_on(out, d);
    let head = out + "## "@ + d.source + " — "@ + d.severity.label_text() + " ("@ + text::decimal(
        d.added.len(),
    ) + " added, "@ + text::decimal(d.removed.len()) + " removed, "@ + text::decimal(
        d.modified.len(),
    ) + " modified)\n\n"@;
    reveal_strlit("**");
    reveal_strlit("Added");
    reveal_strlit("Removed");
    reveal_strlit("**\n\n- `");
    reveal_strlit("**Added**\n\n- `");
    reveal_strlit("**Removed**\n\n- `");
    let one = list_on(head, "Added"@, d.added);
    let two = list_on(one, "Removed"@, d.removed);
    let three = modified_on(two, d.modified);
    lemma_list_begins(head, "Added"@, d.added);
    lemma_list_begins(one, "Removed"@, d.removed);
    lemma_modified_shown(two, d.modified, i, k);
    text::lemma_begins_self(three);
    if d.counts.len() > 0 {
        let top = three + "**Counts**\n\n"@;
        lemma_counts_shown(top, d.counts, i);
        let rows = count_rows_on(top, d.counts);
        text::lemma_begins_more(three, "**Counts**\n\n"@, three);
        text::lemma_begins_through(rows, top, three);
        text::lemma_begins_more(rows, "\n"@, three);
        text::lemma_begins_self(rows);
        text::lemma_begins_more(rows, "\n"@, rows);
        if 0 <= i < d.counts.len() {
            text::lemma_holds_begun(
                page,
                rows,
                "- `"@ + d.counts[i].0 + "`: "@ + text::decimal(d.counts[i].1 as nat) + "\n"@,
            );
        }
    }
    assert(text::begins(page, three));
    text::lemma_begins_through(page, three, two);
    text::lemma_begins_through(page, two, one);
    text::lemma_begins_through(page, one, head);
    if d.added.len() > 0 {
        law_lists_stand_under_their_label(head, "Added"@, d.added, 0);
        let top = head + "**Added**\n\n- `"@ + d.added[0] + "`\n"@;
        assert(top =~= head + "**"@ + "Added"@ + "**\n\n- `"@ + d.added[0] + "`\n"@);
        text::lemma_begins_through(page, one, top);
        if 0 <= i < d.added.len() && i < MAX_LISTED {
            law_lists_stand_under_their_label(head, "Added"@, d.added, i);
            text::lemma_holds_begun(page, one, "- `"@ + d.added[i] + "`\n"@);
        }
    }
    if d.removed.len() > 0 {
        law_lists_stand_under_their_label(one, "Removed"@, d.removed, 0);
        let label = "**Removed**\n\n- `"@ + d.removed[0] + "`\n"@;
        let top = one + "**"@ + "Removed"@ + "**\n\n- `"@ + d.removed[0] + "`\n"@;
        assert(top =~= one + label);
        text::lemma_holds_last(one, label);
        text::lemma_holds_begun(two, top, label);
        text::lemma_holds_begun(page, two, label);
        if 0 <= i < d.removed.len() && i < MAX_LISTED {
            law_lists_stand_under_their_label(one, "Removed"@, d.removed, i);
            text::lemma_holds_begun(page, two, "- `"@ + d.removed[i] + "`\n"@);
        }
    }
    if 0 <= i < d.modified.len() && i < MAX_LISTED {
        text::lemma_holds_begun(
            page,
            three,
            "- `"@ + d.modified[i].id + "` — "@ + text::join(
                field_names(d.modified[i].fields),
                ", "@,
            ) + "\n"@,
        );
        if 0 <= k < d.modified[i].fields.len() && k < MAX_FIELDS {
            text::lemma_holds_begun(
                page,
                three,
                "  - `"@ + d.modified[i].fields[k].field + "`: `"@ + d.modified[i].fields[k].from
                    + "` → `"@ + d.modified[i].fields[k].to + "`\n"@,
            );
        }
    }
}

/// The section of a source that did not move says so.
pub proof fn law_unmoved_section_says_so(out: Seq<char>, d: Movement)
    requires
        !d.changed,
    ensures
        section_on(out, d) == out + "## "@ + d.source + " — unchanged\n\n"@,
{
}

proof fn lemma_notices_shown(out: Seq<char>, notices: Seq<Notice>, i: int)
    ensures
        text::begins(notices_on(out, notices), out),
        0 <= i < notices.len() ==> text::holds(
            notices_on(out, notices),
            "- **"@ + notices[i].id + "** `"@ + notices[i].field + "` — `"@ + notices[i].from
                + "` → `"@ + notices[i].to + "`\n"@,
        ),
    decreases notices.len(),
{
    if notices.len() == 0 {
        text::lemma_begins_self(out);
    } else {
        let front = notices.drop_last();
        let n = notices[notices.len() - 1];
        lemma_notices_shown(out, front, i);
        let before = notices_on(out, front);
        let line = "- **"@ + n.id + "** `"@ + n.field + "` — `"@ + n.from + "` → `"@ + n.to + "`\n"@;
        assert(notices_on(out, notices) =~= before + line);
        text::lemma_begins_more(before, line, out);
        if i == notices.len() - 1 {
            text::lemma_holds_last(before, line);
        } else if 0 <= i < notices.len() {
            assert(front[i] == notices[i]);
            text::lemma_begins_self(before);
            text::lemma_begins_more(before, line, before);
            text::lemma_holds_begun(
                before + line,
                before,
                "- **"@ + notices[i].id + "** `"@ + notices[i].field + "` — `"@ + notices[i].from
                    + "` → `"@ + notices[i].to + "`\n"@,
            );
        }
    }
}

/// What every source has to say comes together in the order of the sources.
pub proof fn law_notices_are_those_of_every_source(deltas: Seq<Movement>, n: Notice)
    ensures
        all_notices(deltas).contains(n) <==> exists|i: int|
            0 <= i < deltas.len() && (#[trigger] deltas[i]).highlights.contains(n),
    decreases deltas.len(),
{
    if deltas.len() > 0 {
        let front = deltas.drop_last();
        let last = deltas[deltas.len() - 1].highlights;
        law_notices_are_those_of_every_source(front, n);
        let rest = all_notices(front);
        let now = all_notices(deltas);
        assert(now == rest + last);
        if rest.contains(n) {
            let k = choose|k: int| 0 <= k < rest.len() && rest[k] == n;
            assert(now[k] == n);
            let i = choose|i: int|
                0 <= i < front.len() && (#[trigger] front[i]).highlights.contains(n);
            assert(deltas[i] == front[i]);
        }
        if last.contains(n) {
            let k = choose|k: int| 0 <= k < last.len() && last[k] == n;
            assert(now[rest.len() + k] == n);
        }
        if now.contains(n) {
            let k = choose|k: int| 0 <= k < now.len() && now[k] == n;
            if k < rest.len() {
                assert(rest[k] == n);
            } else {
                assert(last[k - rest.len()] == n);
                assert(deltas[deltas.len() - 1].highlights.contains(n));
            }
        }
        if exists|i: int| 0 <= i < deltas.len() && (#[trigger] deltas[i]).highlights.contains(n) {
            let i = choose|i: int|
                0 <= i < deltas.len() && (#[trigger] deltas[i]).highlights.contains(n);
            if i < front.len() {
                assert(front[i] == deltas[i]);
            }
        }
    }
}

/// What requires attention stands under that title, each with its old value to
/// the left of the arrow and its new value to the right; where nothing does
/// there is no such section.
pub proof fn law_attention_shows_every_notice(out: Seq<char>, deltas: Seq<Movement>, i: int)
    ensures
        text::begins(attention_on(out, deltas), out),
        all_notices(deltas).len() == 0 ==> attention_on(out, deltas) == out,
        all_notices(deltas).len() > 0 ==> text::begins(
            attention_on(out, deltas),
            out + "## Requires attention\n\n"@,
        ),
        0 <= i < all_notices(deltas).len() && i < MAX_LISTED ==> text::holds(
            attention_on(out, deltas),
            "- **"@ + all_notices(deltas)[i].id + "** `"@ + all_notices(deltas)[i].field + "` — `"@
                + all_notices(deltas)[i].from + "` → `"@ + all_notices(deltas)[i].to + "`\n"@,
        ),
{
    let all = all_notices(deltas);
    text::lemma_begins_self(out);
    if all.len() > 0 {
        let top = out + "## Requires attention\n\n"@;
        let few = all.take(shown(all.len()));
        let lines = notices_on(top, few);
        let cut = more_on(lines, all.len());
        let page = attention_on(out, deltas);
        lemma_notices_shown(top, few, i);
        lemma_more_begins(lines, all.len());
        text::lemma_begins_self(cut);
        text::lemma_begins_more(cut, "\n"@, cut);
        text::lemma_begins_through(page, cut, lines);
        text::lemma_begins_through(page, lines, top);
        text::lemma_begins_more(out, "## Requires attention\n\n"@, out);
        text::lemma_begins_through(page, top, out);
        if 0 <= i < all.len() && i < MAX_LISTED {
            assert(few[i] == all[i]);
            text::lemma_holds_begun(
                page,
                lines,
                "- **"@ + all[i].id + "** `"@ + all[i].field + "` — `"@ + all[i].from + "` → `"@
                    + all[i].to + "`\n"@,
            );
        }
    }
}

/// Notes are listed one a line behind what stands before them.
pub proof fn lemma_notes_listed(out: Seq<char>, notes: Seq<Seq<char>>, i: int)
    ensures
        text::begins(notes_on(out, notes), out),
        0 <= i < notes.len() ==> text::holds(notes_on(out, notes), "- "@ + notes[i] + "\n"@),
    decreases notes.len(),
{
    if notes.len() == 0 {
        text::lemma_begins_self(out);
    } else {
        let front = notes.drop_last();
        lemma_notes_listed(out, front, i);
        let before = notes_on(out, front);
        let line = "- "@ + notes[notes.len() - 1] + "\n"@;
        assert(notes_on(out, notes) =~= before + line);
        text::lemma_begins_more(before, line, out);
        if i == notes.len() - 1 {
            text::lemma_holds_last(before, line);
        } else if 0 <= i < notes.len() {
            assert(front[i] == notes[i]);
            text::lemma_begins_self(before);
            text::lemma_begins_more(before, line, before);
            text::lemma_holds_begun(before + line, before, "- "@ + notes[i] + "\n"@);
        }
    }
}

proof fn lemma_drift_of(deltas: Seq<Movement>, i: int, k: int)
    requires
        0 <= i < deltas.len(),
        0 <= k < deltas[i].drift.len(),
    ensures
        all_drift(deltas).contains(deltas[i].drift[k]),
    decreases deltas.len(),
{
    let front = deltas.drop_last();
    let rest = all_drift(front);
    let last = deltas[deltas.len() - 1].drift;
    let now = all_drift(deltas);
    assert(now == rest + last);
    if i < front.len() {
        assert(front[i] == deltas[i]);
        lemma_drift_of(front, i, k);
        let j = choose|j: int| 0 <= j < rest.len() && rest[j] == deltas[i].drift[k];
        assert(now[j] == deltas[i].drift[k]);
    } else {
        assert(now[rest.len() + k] == last[k]);
    }
}

/// Whatever drifted in any source is said under its own title.
pub proof fn law_drift_is_shown(out: Seq<char>, deltas: Seq<Movement>, i: int, k: int)
    requires
        0 <= i < deltas.len(),
        0 <= k < deltas[i].drift.len(),
    ensures
        text::begins(drift_on(out, deltas), out + "## Upstream drift\n\n"@),
        text::holds(drift_on(out, deltas), "- "@ + deltas[i].drift[k] + "\n"@),
{
    lemma_drift_of(deltas, i, k);
    let all = all_drift(deltas);
    let j = choose|j: int| 0 <= j < all.len() && all[j] == deltas[i].drift[k];
    let top = out + "## Upstream drift\n\n"@;
    lemma_notes_listed(top, all, j);
    let lines = notes_on(top, all);
    text::lemma_begins_self(lines);
    text::lemma_begins_more(lines, "\n"@, lines);
    text::lemma_begins_through(lines + "\n"@, lines, top);
    text::lemma_holds_begun(lines + "\n"@, lines, "- "@ + all[j] + "\n"@);
}

proof fn lemma_drift_begins(out: Seq<char>, deltas: Seq<Movement>)
    ensures
        text::begins(drift_on(out, deltas), out),
{
    let all = all_drift(deltas);
    text::lemma_begins_self(out);
    if all.len() > 0 {
        let top = out + "## Upstream drift\n\n"@;
        lemma_notes_listed(top, all, 0);
        text::lemma_begins_more(out, "## Upstream drift\n\n"@, out);
        text::lemma_begins_through(notes_on(top, all), top, out);
        text::lemma_begins_more(notes_on(top, all), "\n"@, out);
    }
}

proof fn lemma_section_begins(out: Seq<char>, d: Movement)
    ensures
        text::begins(section_on(out, d), out),
{
    text::lemma_begins_self(out);
    if d.changed {
        law_section_shows_its_movement(out, d, 0, 0);
        let rest = "## "@ + d.source + " — "@ + d.severity.label_text() + " ("@ + text::decimal(
            d.added.len(),
        ) + " added, "@ + text::decimal(d.removed.len()) + " removed, "@ + text::decimal(
            d.modified.len(),
        ) + " modified)\n\n"@;
        let head = out + "## "@ + d.source + " — "@ + d.severity.label_text() + " ("@
            + text::decimal(d.added.len()) + " added, "@ + text::decimal(d.removed.len())
            + " removed, "@ + text::decimal(d.modified.len()) + " modified)\n\n"@;
        assert(head =~= out + rest);
        text::lemma_begins_more(out, rest, out);
        text::lemma_begins_through(section_on(out, d), head, out);
    } else {
        let rest = "## "@ + d.source + " — unchanged\n\n"@;
        assert(section_on(out, d) =~= out + rest);
        text::lemma_begins_more(out, rest, out);
    }
}

proof fn lemma_sections_begin(out: Seq<char>, deltas: Seq<Movement>, i: int)
    ensures
        text::begins(sections_on(out, deltas), out),
        0 <= i < deltas.len() ==> text::begins(
            sections_on(out, deltas),
            section_on(sections_on(out, deltas.take(i)), deltas[i]),
        ),
    decreases deltas.len(),
{
    text::lemma_begins_self(sections_on(out, deltas));
    if deltas.len() > 0 {
        let front = deltas.drop_last();
        lemma_sections_begin(out, front, i);
        let before = sections_on(out, front);
        lemma_section_begins(before, deltas.last());
        text::lemma_begins_through(sections_on(out, deltas), before, out);
        if i == deltas.len() - 1 {
            assert(deltas.take(i) =~= front);
        } else if 0 <= i < deltas.len() {
            assert(front.take(i) =~= deltas.take(i));
            assert(front[i] == deltas[i]);
            text::lemma_begins_through(
                sections_on(out, deltas),
                before,
                section_on(sections_on(out, deltas.take(i)), deltas[i]),
            );
        }
    }
}

/// Every source has its section, in the order of the sources.
pub proof fn law_every_source_has_its_section(out: Seq<char>, deltas: Seq<Movement>, i: int)
    requires
        0 <= i < deltas.len(),
    ensures
        exists|before: Seq<char>|
            text::begins(before, out) && #[trigger] text::begins(
                sections_on(out, deltas),
                section_on(before, deltas[i]),
            ),
{
    lemma_sections_begin(out, deltas, i);
    lemma_sections_begin(out, deltas.take(i), 0);
    let before = sections_on(out, deltas.take(i));
    assert(text::begins(sections_on(out, deltas), section_on(before, deltas[i])));
}

proof fn lemma_pins(out: Seq<char>, m: Seq<(Seq<char>, Record)>, i: int)
    ensures
        text::begins(pins_on(out, m), out),
        0 <= i < m.len() ==> text::holds(
            pins_on(out, m),
            "| pinned `"@ + m[i].0 + "` | "@ + pin_text(m[i].1) + " |\n"@,
        ),
    decreases m.len(),
{
    if m.len() == 0 {
        text::lemma_begins_self(out);
    } else {
        let front = m.drop_last();
        let last = m[m.len() - 1];
        lemma_pins(out, front, i);
        let before = pins_on(out, front);
        let line = "| pinned `"@ + last.0 + "` | "@ + pin_text(last.1) + " |\n"@;
        assert(pins_on(out, m) =~= before + line);
        text::lemma_begins_more(before, line, out);
        if i == m.len() - 1 {
            text::lemma_holds_last(before, line);
        } else if 0 <= i < m.len() {
            assert(front[i] == m[i]);
            text::lemma_begins_self(before);
            text::lemma_begins_more(before, line, before);
            text::lemma_holds_begun(
                before + line,
                before,
                "| pinned `"@ + m[i].0 + "` | "@ + pin_text(m[i].1) + " |\n"@,
            );
        }
    }
}

/// A pin links the whole commit in its repository, shows the beginning of the
/// commit, and says when it was made; an offline one says that it is.
pub proof fn law_pin_links_its_commit(r: Record)
    requires
        pinnable(r),
    ensures
        text::begins(r.provenance.commit, "offline-"@) ==> pin_text(r) == "`"@ + r.provenance.commit
            + "` (offline replay)"@,
        !text::begins(r.provenance.commit, "offline-"@) ==> {
            &&& text::holds(
                pin_text(r),
                "(https://github.com/"@ + r.provenance.repo + "/commit/"@ + r.provenance.commit
                    + ") @ "@ + r.provenance.committed_at,
            )
            &&& exists|short: Seq<char>|
                text::begins(r.provenance.commit, short) && #[trigger] text::begins(
                    pin_text(r),
                    "[`"@ + short + "`]"@,
                ) && (text::utf8_len(short) == 8 || short == r.provenance.commit)
        },
{
    let p = r.provenance;
    if !text::begins(p.commit, "offline-"@) {
        let short = text::byte_prefix(p.commit, 8)->0;
        text::law_byte_prefix_is_a_beginning(p.commit, 8);
        reveal_strlit("`](https://github.com/");
        reveal_strlit("`]");
        reveal_strlit("(https://github.com/");
        assert("`](https://github.com/"@ =~= "`]"@ + "(https://github.com/"@);
        let link = "(https://github.com/"@ + p.repo + "/commit/"@ + p.commit + ") @ "@
            + p.committed_at;
        let top = "[`"@ + short + "`]"@;
        assert(pin_text(r) =~= top + link);
        text::lemma_holds_last(top, link);
        text::lemma_begins_self(top);
        text::lemma_begins_more(top, link, top);
        assert(text::begins(pin_text(r), "[`"@ + short + "`]"@));
    }
}

/// The page of a change opens with the headline, then gives the severity, the
/// upstream version, the version before it where it differs, the bundle digest
/// and each pin in the row of its own name.
pub proof fn law_changes_page_shows_the_plan(p: Outlook, i: int)
    ensures
        text::begins(changes_text(p), "# "@ + p.headline_text() + "\n\n| | |\n|---|---|\n"@),
        text::holds(changes_text(p), "| severity | `"@ + p.severity.label_text() + "` |\n"@),
        text::holds(changes_text(p), "| upstream rules version | `"@ + p.upstream_version + "`"@),
        p.previous_upstream_version matches Some(was) ==> (was != p.upstream_version ==> text::holds(
            changes_text(p),
            "| upstream rules version | `"@ + p.upstream_version + "` (was `"@ + was + "`) |\n"@,
        )),
        p.previous_upstream_version is None || p.previous_upstream_version == Some(
            p.upstream_version,
        ) ==> text::holds(
            changes_text(p),
            "| upstream rules version | `"@ + p.upstream_version + "` |\n"@,
        ),
        text::holds(changes_text(p), "| bundle digest | `"@ + p.bundle_sha256 + "` |\n"@),
        0 <= i < p.bundle.sources.len() ==> text::holds(
            changes_text(p),
            "| pinned `"@ + p.bundle.sources[i].0 + "` | "@ + pin_text(p.bundle.sources[i].1)
                + " |\n"@,
        ),
{
    let page = changes_text(p);
    let gap = "\n\n| | |\n|---|---|\n"@;
    let title = "# "@ + p.headline_text() + "\n\n| | |\n|---|---|\n| severity | `"@
        + p.severity.label_text() + "` |\n| upstream rules version | `"@ + p.upstream_version
        + "`"@;
    let was = was_on(title, p);
    let digest = was + " |\n| bundle digest | `"@ + p.bundle_sha256 + "` |\n"@;
    let pins = pins_on(digest, p.bundle.sources);
    let opened = pins + "\n"@;
    let born = genesis_on(opened, p);
    let attention = attention_on(born, p.deltas);
    let affected = impact_on(
        attention,
        p.previous_rules,
        table::lookup(p.bundle.content, sources::RULES@),
    );
    let sections = sections_on(affected, p.deltas);
    lemma_drift_begins(sections, p.deltas);
    lemma_sections_begin(affected, p.deltas, 0);
    text::lemma_begins_through(page, sections, affected);
    lemma_impact_begins(
        attention,
        p.previous_rules,
        table::lookup(p.bundle.content, sources::RULES@),
    );
    text::lemma_begins_through(page, affected, attention);
    law_attention_shows_every_notice(born, p.deltas, 0);
    text::lemma_begins_through(page, attention, born);
    text::lemma_begins_self(opened);
    text::lemma_begins_more(
        opened,
        "Genesis version — the full FedRAMP ruleset, submission schemas, and marketplace snapshot are signed for the first time. Nothing to diff against.\n\n"@,
        opened,
    );
    text::lemma_begins_through(page, born, opened);
    text::lemma_begins_self(pins);
    text::lemma_begins_more(pins, "\n"@, pins);
    text::lemma_begins_through(page, opened, pins);
    lemma_pins(digest, p.bundle.sources, i);
    text::lemma_begins_through(page, pins, digest);
    lemma_page_rows(p);
    text::lemma_begins_through(
        page,
        digest,
        "# "@ + p.headline_text() + "\n\n| | |\n|---|---|\n"@,
    );
    text::lemma_holds_begun(page, digest, "| severity | `"@ + p.severity.label_text() + "` |\n"@);
    text::lemma_holds_begun(
        page,
        digest,
        "| upstream rules version | `"@ + p.upstream_version + "`"@,
    );
    text::lemma_holds_begun(page, digest, "| bundle digest | `"@ + p.bundle_sha256 + "` |\n"@);
    if let Some(was) = p.previous_upstream_version {
        if was != p.upstream_version {
            text::lemma_holds_begun(
                page,
                digest,
                "| upstream rules version | `"@ + p.upstream_version + "` (was `"@ + was + "`) |\n"@,
            );
        }
    }
    if p.previous_upstream_version is None || p.previous_upstream_version == Some(
        p.upstream_version,
    ) {
        text::lemma_holds_begun(
            page,
            digest,
            "| upstream rules version | `"@ + p.upstream_version + "` |\n"@,
        );
    }
    if 0 <= i < p.bundle.sources.len() {
        text::lemma_holds_begun(
            page,
            pins,
            "| pinned `"@ + p.bundle.sources[i].0 + "` | "@ + pin_text(p.bundle.sources[i].1)
                + " |\n"@,
        );
    }
}

proof fn lemma_impact_begins(out: Seq<char>, before: Option<Json>, after: Option<Json>)
    ensures
        text::begins(impact_on(out, before, after), out),
{
    text::lemma_begins_self(out);
    match (before, after) {
        (Some(b), Some(a)) => {
            let rows = impact_rows(b, a, audience());
            if rows.len() > 0 {
                let title = "## Who this affects\n\n| profile | added | removed | changed | binding shifts |\n|---|---|---|---|---|\n"@;
                let rest = title + text::join(rows, ""@) + "\n"@;
                assert(impact_on(out, before, after) =~= out + rest);
                text::lemma_begins_more(out, rest, out);
            }
        },
        _ => {},
    }
}

proof fn lemma_page_rows(p: Outlook)
    ensures
        ({
            let title = "# "@ + p.headline_text() + "\n\n| | |\n|---|---|\n| severity | `"@
                + p.severity.label_text() + "` |\n| upstream rules version | `"@
                + p.upstream_version + "`"@;
            let digest = was_on(title, p) + " |\n| bundle digest | `"@ + p.bundle_sha256 + "` |\n"@;
            let version = "| upstream rules version | `"@ + p.upstream_version + "`"@;
            &&& text::begins(digest, "# "@ + p.headline_text() + "\n\n| | |\n|---|---|\n"@)
            &&& text::holds(digest, "| severity | `"@ + p.severity.label_text() + "` |\n"@)
            &&& text::holds(digest, version)
            &&& text::holds(digest, "| bundle digest | `"@ + p.bundle_sha256 + "` |\n"@)
            &&& p.previous_upstream_version matches Some(was) ==> (was != p.upstream_version
                ==> text::holds(
                digest,
                "| upstream rules version | `"@ + p.upstream_version + "` (was `"@ + was
                    + "`) |\n"@,
            ))
            &&& (p.previous_upstream_version is None || p.previous_upstream_version == Some(
                p.upstream_version,
            )) ==> text::holds(
                digest,
                "| upstream rules version | `"@ + p.upstream_version + "` |\n"@,
            )
        }),
{
    let g = "\n\n| | |\n|---|---|\n"@;
    let sv = "| severity | `"@;
    let en = "` |\n"@;
    let up = "| upstream rules version | `"@;
    let bd = "| bundle digest | `"@;
    let e0 = " |\n"@;
    let tick = "`"@;
    let w = " (was `"@;
    assert("\n\n| | |\n|---|---|\n| severity | `"@ == g + sv) by {
        reveal_strlit("\n\n| | |\n|---|---|\n| severity | `");
        reveal_strlit("\n\n| | |\n|---|---|\n");
        reveal_strlit("| severity | `");
        assert("\n\n| | |\n|---|---|\n| severity | `"@ =~= g + sv);
    }
    assert("` |\n| upstream rules version | `"@ == en + up) by {
        reveal_strlit("` |\n| upstream rules version | `");
        reveal_strlit("` |\n");
        reveal_strlit("| upstream rules version | `");
        assert("` |\n| upstream rules version | `"@ =~= en + up);
    }
    assert(" |\n| bundle digest | `"@ == e0 + bd) by {
        reveal_strlit(" |\n| bundle digest | `");
        reveal_strlit(" |\n");
        reveal_strlit("| bundle digest | `");
        assert(" |\n| bundle digest | `"@ =~= e0 + bd);
    }
    assert(tick + e0 == en && "`)"@ + e0 == "`) |\n"@ && tick + w == "` (was `"@) by {
        reveal_strlit("`");
        reveal_strlit(" |\n");
        reveal_strlit("` |\n");
        reveal_strlit("`)");
        reveal_strlit("`) |\n");
        reveal_strlit(" (was `");
        reveal_strlit("` (was `");
        assert(tick + e0 =~= en);
        assert("`)"@ + e0 =~= "`) |\n"@);
        assert(tick + w =~= "` (was `"@);
    }
    let head = "# "@ + p.headline_text();
    let mid = match p.previous_upstream_version {
        Some(was) => if was != p.upstream_version {
            w + was + "`)"@
        } else {
            Seq::empty()
        },
        None => Seq::empty(),
    };
    let l = p.severity.label_text();
    let title = head + (g + sv) + l + (en + up) + p.upstream_version + tick;
    lemma_was(title, p);
    lemma_page_parts(head, g, sv, l, en, up, p.upstream_version, tick, mid, e0, bd, p.bundle_sha256);
    if let Some(was) = p.previous_upstream_version {
        if was != p.upstream_version {
            assert(up + p.upstream_version + tick + (w + was + "`)"@) + e0 =~= up
                + p.upstream_version + (tick + w) + was + ("`)"@ + e0));
        }
    }
    if mid.len() == 0 {
        assert(up + p.upstream_version + tick + mid + e0 =~= up + p.upstream_version + (tick + e0));
    }
}

proof fn lemma_was(title: Seq<char>, p: Outlook)
    ensures
        was_on(title, p) == title + (match p.previous_upstream_version {
            Some(was) => if was != p.upstream_version {
                " (was `"@ + was + "`)"@
            } else {
                Seq::empty()
            },
            None => Seq::empty(),
        }),
{
    assert(title + Seq::<char>::empty() =~= title);
    if let Some(was) = p.previous_upstream_version {
        assert(title + (" (was `"@ + was + "`)"@) =~= title + " (was `"@ + was + "`)"@);
    }
}

proof fn lemma_page_parts(
    head: Seq<char>,
    g: Seq<char>,
    sv: Seq<char>,
    l: Seq<char>,
    en: Seq<char>,
    up: Seq<char>,
    v: Seq<char>,
    tick: Seq<char>,
    mid: Seq<char>,
    e0: Seq<char>,
    bd: Seq<char>,
    d: Seq<char>,
)
    ensures
        ({
            let title = head + (g + sv) + l + (en + up) + v + tick;
            let page = title + mid + (e0 + bd) + d + en;
            &&& text::begins(page, head + g)
            &&& text::holds(page, sv + l + en)
            &&& text::holds(page, up + v + tick)
            &&& text::holds(page, bd + d + en)
            &&& text::holds(page, up + v + tick + mid + e0)
        }),
{
    let top = head + g;
    let p1 = head + (g + sv);
    let p2 = p1 + l;
    let p3 = p2 + (en + up);
    let p4 = p3 + v;
    let title = p4 + tick;
    let p6 = title + mid;
    let p7 = p6 + (e0 + bd);
    let p8 = p7 + d;
    let page = p8 + en;
    assert(p1 =~= top + sv);
    lemma_on(p8, en);
    lemma_on(p7, d);
    lemma_on(p6, e0 + bd);
    lemma_on(title, mid);
    lemma_on(p4, tick);
    lemma_on(p3, v);
    lemma_on(p2, en + up);
    lemma_on(p1, l);
    lemma_on(top, sv);
    text::lemma_begins_through(page, p8, p7);
    text::lemma_begins_through(page, p7, p6);
    text::lemma_begins_through(page, p6, title);
    text::lemma_begins_through(page, title, p4);
    text::lemma_begins_through(page, p4, p3);
    text::lemma_begins_through(page, p3, p2);
    text::lemma_begins_through(page, p2, p1);
    text::lemma_begins_through(page, p1, top);
    assert(p3 =~= top + (sv + l + en) + up);
    text::lemma_holds_within(top, sv + l + en, up);
    text::lemma_holds_begun(page, p3, sv + l + en);
    assert(title =~= p2 + en + (up + v + tick));
    text::lemma_holds_last(p2 + en, up + v + tick);
    text::lemma_holds_begun(page, title, up + v + tick);
    assert(page =~= p6 + e0 + (bd + d + en));
    text::lemma_holds_last(p6 + e0, bd + d + en);
    let row = up + v + tick + mid + e0;
    assert(p7 =~= p2 + en + row + bd) by {
        assert(p7 =~= p6 + e0 + bd);
        assert(p6 =~= p2 + en + (up + v + tick + mid));
        assert(p6 + e0 =~= p2 + en + row);
    }
    text::lemma_holds_within(p2 + en, row, bd);
    text::lemma_holds_begun(page, p7, row);
}

proof fn lemma_on(before: Seq<char>, more: Seq<char>)
    ensures
        text::begins(before + more, before),
{
    text::lemma_begins_self(before);
    text::lemma_begins_more(before, more, before);
}

proof fn lemma_flags(out: Seq<char>, deltas: Seq<Movement>, i: int)
    ensures
        text::begins(moved_flags_on(out, deltas), out),
        0 <= i < deltas.len() ==> text::holds(
            moved_flags_on(out, deltas),
            deltas[i].source + (if deltas[i].changed {
                "_changed=true\n"@
            } else {
                "_changed=false\n"@
            }),
        ),
    decreases deltas.len(),
{
    if deltas.len() == 0 {
        text::lemma_begins_self(out);
    } else {
        reveal_strlit("_changed=");
        reveal_strlit("true");
        reveal_strlit("false");
        reveal_strlit("\n");
        reveal_strlit("_changed=true\n");
        reveal_strlit("_changed=false\n");
        assert("_changed=true\n"@ =~= "_changed="@ + "true"@ + "\n"@);
        assert("_changed=false\n"@ =~= "_changed="@ + "false"@ + "\n"@);
        let front = deltas.drop_last();
        let d = deltas[deltas.len() - 1];
        lemma_flags(out, front, i);
        let before = moved_flags_on(out, front);
        let line = d.source + (if d.changed {
            "_changed=true\n"@
        } else {
            "_changed=false\n"@
        });
        assert(moved_flags_on(out, deltas) =~= before + line);
        text::lemma_begins_more(before, line, out);
        if i == deltas.len() - 1 {
            text::lemma_holds_last(before, line);
        } else if 0 <= i < deltas.len() {
            assert(front[i] == deltas[i]);
            text::lemma_begins_self(before);
            text::lemma_begins_more(before, line, before);
            text::lemma_holds_begun(
                before + line,
                before,
                deltas[i].source + (if deltas[i].changed {
                    "_changed=true\n"@
                } else {
                    "_changed=false\n"@
                }),
            );
        }
    }
}

/// The outputs say, each under its own key, whether anything changed, whether a
/// version was signed and which, the severity, whether this is the first
/// version, the upstream version, the bundle digest and the headline, and for
/// each source whether it changed.
pub proof fn law_outputs_say_what_the_plan_is(p: Outlook, chain_version: Option<u64>, i: int)
    ensures
        ({
            let page = outputs_text(p, chain_version);
            &&& p.changed ==> text::begins(page, "changed=true\n"@)
            &&& !p.changed ==> text::begins(page, "changed=false\n"@)
            &&& chain_version is Some ==> text::holds(page, "\ncommitted=true\n"@)
            &&& chain_version is None ==> text::holds(page, "\ncommitted=false\n"@)
            &&& text::holds(page, "\nseverity="@ + p.severity.label_text() + "\n"@)
            &&& p.genesis ==> text::holds(page, "\ngenesis=true\n"@)
            &&& !p.genesis ==> text::holds(page, "\ngenesis=false\n"@)
            &&& text::holds(page, "\nupstream_version="@ + p.upstream_version + "\n"@)
            &&& text::holds(page, "\nbundle_sha256="@ + p.bundle_sha256 + "\n"@)
            &&& text::holds(page, "\nheadline="@ + p.headline_text() + "\n"@)
            &&& chain_version matches Some(v) ==> text::holds(
                page,
                "\nchain_version="@ + text::decimal(v as nat) + "\n"@,
            )
            &&& 0 <= i < p.deltas.len() ==> text::holds(
                page,
                p.deltas[i].source + (if p.deltas[i].changed {
                    "_changed=true\n"@
                } else {
                    "_changed=false\n"@
                }),
            )
        }),
{
    let nl = "\n"@;
    reveal_strlit("\n");
    assert(nl =~= seq!['\n']);
    let c0 = "changed="@ + bool_word(p.changed);
    let c1 = "\ncommitted="@ + bool_word(chain_version is Some);
    let c2 = "\nseverity="@ + p.severity.label_text();
    let c3 = "\ngenesis="@ + bool_word(p.genesis);
    let c4 = "\nupstream_version="@ + p.upstream_version;
    let c5 = "\nbundle_sha256="@ + p.bundle_sha256;
    let c6 = "\nheadline="@ + p.headline_text();
    let out = "changed="@ + bool_word(p.changed) + "\ncommitted="@ + bool_word(
        chain_version is Some,
    ) + "\nseverity="@ + p.severity.label_text() + "\ngenesis="@ + bool_word(p.genesis)
        + "\nupstream_version="@ + p.upstream_version + "\nbundle_sha256="@ + p.bundle_sha256
        + "\nheadline="@ + p.headline_text() + "\n"@;
    assert(out =~= c0 + c1 + c2 + c3 + c4 + c5 + c6 + nl);
    lemma_output_words(p.changed, chain_version is Some, p.genesis);
    lemma_output_keys();
    lemma_output_lines(c0, c1, c2, c3, c4, c5, c6);
    let full = match chain_version {
        Some(version) => out + "chain_version="@ + text::decimal(version as nat) + "\n"@,
        None => out,
    };
    text::lemma_begins_self(out);
    let page = outputs_text(p, chain_version);
    if let Some(v) = chain_version {
        let body = c0 + c1 + c2 + c3 + c4 + c5 + c6;
        let line = "\nchain_version="@ + text::decimal(v as nat) + "\n"@;
        reveal_strlit("\nchain_version=");
        reveal_strlit("chain_version=");
        assert("\nchain_version="@ =~= nl + "chain_version="@);
        assert(full =~= body + line);
        text::lemma_holds_last(body, line);
        let more = "chain_version="@ + text::decimal(v as nat) + "\n"@;
        assert(full =~= out + more);
        text::lemma_begins_more(out, more, out);
    }
    lemma_flags(full, p.deltas, i);
    text::lemma_begins_through(page, full, out);
    text::lemma_begins_through(page, out, c0 + nl);
    text::lemma_holds_begun(page, out, c1 + nl);
    text::lemma_holds_begun(page, out, c2 + nl);
    text::lemma_holds_begun(page, out, c3 + nl);
    text::lemma_holds_begun(page, out, c4 + nl);
    text::lemma_holds_begun(page, out, c5 + nl);
    text::lemma_holds_begun(page, out, c6 + nl);
    if let Some(v) = chain_version {
        text::lemma_holds_begun(
            page,
            full,
            "\nchain_version="@ + text::decimal(v as nat) + "\n"@,
        );
    }
}

proof fn lemma_output_keys()
    ensures
        "\ncommitted="@.len() > 0 && "\ncommitted="@[0] == '\n',
        "\nseverity="@.len() > 0 && "\nseverity="@[0] == '\n',
        "\ngenesis="@.len() > 0 && "\ngenesis="@[0] == '\n',
        "\nupstream_version="@.len() > 0 && "\nupstream_version="@[0] == '\n',
        "\nbundle_sha256="@.len() > 0 && "\nbundle_sha256="@[0] == '\n',
        "\nheadline="@.len() > 0 && "\nheadline="@[0] == '\n',
{
    reveal_strlit("\ncommitted=");
    reveal_strlit("\nseverity=");
    reveal_strlit("\ngenesis=");
    reveal_strlit("\nupstream_version=");
    reveal_strlit("\nbundle_sha256=");
    reveal_strlit("\nheadline=");
}

proof fn lemma_output_words(changed: bool, committed: bool, genesis: bool)
    ensures
        "changed="@ + bool_word(changed) + "\n"@ == (if changed {
            "changed=true\n"@
        } else {
            "changed=false\n"@
        }),
        "\ncommitted="@ + bool_word(committed) + "\n"@ == (if committed {
            "\ncommitted=true\n"@
        } else {
            "\ncommitted=false\n"@
        }),
        "\ngenesis="@ + bool_word(genesis) + "\n"@ == (if genesis {
            "\ngenesis=true\n"@
        } else {
            "\ngenesis=false\n"@
        }),
{
    reveal_strlit("true");
    reveal_strlit("false");
    reveal_strlit("\n");
    reveal_strlit("changed=");
    reveal_strlit("changed=true\n");
    reveal_strlit("changed=false\n");
    reveal_strlit("\ncommitted=");
    reveal_strlit("\ncommitted=true\n");
    reveal_strlit("\ncommitted=false\n");
    reveal_strlit("\ngenesis=");
    reveal_strlit("\ngenesis=true\n");
    reveal_strlit("\ngenesis=false\n");
    assert("changed=true\n"@ =~= "changed="@ + "true"@ + "\n"@);
    assert("changed=false\n"@ =~= "changed="@ + "false"@ + "\n"@);
    assert("\ncommitted=true\n"@ =~= "\ncommitted="@ + "true"@ + "\n"@);
    assert("\ncommitted=false\n"@ =~= "\ncommitted="@ + "false"@ + "\n"@);
    assert("\ngenesis=true\n"@ =~= "\ngenesis="@ + "true"@ + "\n"@);
    assert("\ngenesis=false\n"@ =~= "\ngenesis="@ + "false"@ + "\n"@);
}

proof fn lemma_line_within(before: Seq<char>, line: Seq<char>, after: Seq<char>)
    requires
        after.len() > 0,
        after[0] == '\n',
    ensures
        text::holds(before + line + after, line + "\n"@),
{
    reveal_strlit("\n");
    assert(before + line + after =~= before + (line + "\n"@) + after.drop_first());
    text::lemma_holds_within(before, line + "\n"@, after.drop_first());
}

proof fn lemma_output_lines(
    c0: Seq<char>,
    c1: Seq<char>,
    c2: Seq<char>,
    c3: Seq<char>,
    c4: Seq<char>,
    c5: Seq<char>,
    c6: Seq<char>,
)
    requires
        c1.len() > 0 && c1[0] == '\n',
        c2.len() > 0 && c2[0] == '\n',
        c3.len() > 0 && c3[0] == '\n',
        c4.len() > 0 && c4[0] == '\n',
        c5.len() > 0 && c5[0] == '\n',
        c6.len() > 0 && c6[0] == '\n',
    ensures
        ({
            let out = c0 + c1 + c2 + c3 + c4 + c5 + c6 + "\n"@;
            &&& text::begins(out, c0 + "\n"@)
            &&& text::holds(out, c1 + "\n"@)
            &&& text::holds(out, c2 + "\n"@)
            &&& text::holds(out, c3 + "\n"@)
            &&& text::holds(out, c4 + "\n"@)
            &&& text::holds(out, c5 + "\n"@)
            &&& text::holds(out, c6 + "\n"@)
        }),
{
    reveal_strlit("\n");
    let nl = "\n"@;
    let out = c0 + c1 + c2 + c3 + c4 + c5 + c6 + nl;
    let t1 = c1 + c2 + c3 + c4 + c5 + c6 + nl;
    assert(out =~= (c0 + nl) + t1.drop_first());
    text::lemma_begins_self(c0 + nl);
    text::lemma_begins_more(c0 + nl, t1.drop_first(), c0 + nl);
    let t2 = c2 + c3 + c4 + c5 + c6 + nl;
    assert(out =~= c0 + c1 + t2);
    lemma_line_within(c0, c1, t2);
    let t3 = c3 + c4 + c5 + c6 + nl;
    assert(out =~= (c0 + c1) + c2 + t3);
    lemma_line_within(c0 + c1, c2, t3);
    let t4 = c4 + c5 + c6 + nl;
    assert(out =~= (c0 + c1 + c2) + c3 + t4);
    lemma_line_within(c0 + c1 + c2, c3, t4);
    let t5 = c5 + c6 + nl;
    assert(out =~= (c0 + c1 + c2 + c3) + c4 + t5);
    lemma_line_within(c0 + c1 + c2 + c3, c4, t5);
    let t6 = c6 + nl;
    assert(out =~= (c0 + c1 + c2 + c3 + c4) + c5 + t6);
    lemma_line_within(c0 + c1 + c2 + c3 + c4, c5, t6);
    assert(out =~= (c0 + c1 + c2 + c3 + c4 + c5) + c6 + nl);
    lemma_line_within(c0 + c1 + c2 + c3 + c4 + c5, c6, nl);
}

/// A commit message is the headline, and behind it, for each source that moved,
/// how much was added, removed and modified.
pub proof fn law_commit_message_counts_what_moved(p: Outlook, i: int)
    ensures
        text::begins(commit_text(p), p.headline_text()),
        p.genesis ==> commit_text(p) == p.headline_text(),
        0 <= i < p.deltas.len() && p.deltas[i].changed ==> moved_counts(p.deltas).contains(
            p.deltas[i].source + ": +"@ + text::decimal(p.deltas[i].added.len()) + " -"@
                + text::decimal(p.deltas[i].removed.len()) + " ~"@ + text::decimal(
                p.deltas[i].modified.len(),
            ),
        ),
        !p.genesis && moved_counts(p.deltas).len() > 0 ==> commit_text(p) == p.headline_text()
            + " ["@ + text::join(moved_counts(p.deltas), "; "@) + "]"@,
{
    let head = p.headline_text();
    let tail = " ["@ + text::join(moved_counts(p.deltas), "; "@) + "]"@;
    text::lemma_begins_self(head);
    text::lemma_begins_more(head, tail, head);
    assert(head + " ["@ + text::join(moved_counts(p.deltas), "; "@) + "]"@ =~= head + tail);
    if 0 <= i < p.deltas.len() && p.deltas[i].changed {
        lemma_moved_counted(p.deltas, i);
    }
}

proof fn lemma_moved_counted(deltas: Seq<Movement>, i: int)
    requires
        0 <= i < deltas.len(),
        deltas[i].changed,
    ensures
        moved_counts(deltas).contains(movement_counts(deltas[i])),
    decreases deltas.len(),
{
    let front = deltas.drop_last();
    let rest = moved_counts(front);
    let now = moved_counts(deltas);
    if i < front.len() {
        assert(front[i] == deltas[i]);
        lemma_moved_counted(front, i);
        let k = choose|k: int| 0 <= k < rest.len() && rest[k] == movement_counts(deltas[i]);
        assert(now[k] == movement_counts(deltas[i]));
    } else {
        assert(now[now.len() - 1] == movement_counts(deltas[i]));
    }
}

/// The binding duties among some are those that must be met.
pub proof fn law_binding_duties_are_counted(duties: Seq<Duty>)
    ensures
        binding_count(duties) == duties.filter(
            |d: Duty| d.force == "MUST"@ || d.force == "MUST NOT"@,
        ).len(),
        binding_count(duties) <= duties.len(),
    decreases duties.len(),
{
    reveal(Seq::filter);
    if duties.len() > 0 {
        law_binding_duties_are_counted(duties.drop_last());
    }
}

proof fn lemma_duties_listed(out: Seq<char>, duties: Seq<Duty>, i: int)
    ensures
        text::begins(duties_on(out, duties), out),
        0 <= i < duties.len() ==> text::holds(
            duties_on(out, duties),
            "- **"@ + duties[i].id + "** "@ + duties[i].force + " — "@ + duties[i].statement
                + "\n"@,
        ),
    decreases duties.len(),
{
    if duties.len() == 0 {
        text::lemma_begins_self(out);
    } else {
        let front = duties.drop_last();
        let d = duties[duties.len() - 1];
        lemma_duties_listed(out, front, i);
        let before = duties_on(out, front);
        let line = "- **"@ + d.id + "** "@ + d.force + " — "@ + d.statement + "\n"@;
        assert(duties_on(out, duties) =~= before + line);
        text::lemma_begins_more(before, line, out);
        if i == duties.len() - 1 {
            text::lemma_holds_last(before, line);
        } else if 0 <= i < duties.len() {
            assert(front[i] == duties[i]);
            text::lemma_begins_self(before);
            text::lemma_begins_more(before, line, before);
            text::lemma_holds_begun(
                before + line,
                before,
                "- **"@ + duties[i].id + "** "@ + duties[i].force + " — "@ + duties[i].statement
                    + "\n"@,
            );
        }
    }
}

/// The page of a party's obligations names the party, says how many there are and
/// how many of them must be met, and lists each with its force and statement.
pub proof fn law_obligations_page_lists_every_duty(party: Party, duties: Seq<Duty>, i: int)
    ensures
        text::begins(
            obligations_text(party, duties),
            "# Obligations — "@ + party.label_text() + "\n\n"@ + text::decimal(duties.len())
                + " obligations, "@ + text::decimal(
                duties.filter(|d: Duty| d.force == "MUST"@ || d.force == "MUST NOT"@).len(),
            ) + " binding\n\n"@,
        ),
        0 <= i < duties.len() ==> text::holds(
            obligations_text(party, duties),
            "- **"@ + duties[i].id + "** "@ + duties[i].force + " — "@ + duties[i].statement
                + "\n"@,
        ),
{
    law_binding_duties_are_counted(duties);
    let top = "# Obligations — "@ + party.label_text() + "\n\n"@ + text::decimal(duties.len())
        + " obligations, "@ + text::decimal(binding_count(duties)) + " binding\n\n"@;
    lemma_duties_listed(top, duties, i);
}

/// A run fails exactly where a threshold was set, something changed, and the
/// change is at least as loud as the threshold.
pub proof fn law_threshold_decides(severity: Severity, threshold: Severity)
    ensures
        !fails(severity, None),
        fails(severity, Some(threshold)) <==> severity != Severity::Unchanged && (severity
            == threshold || crate::severity::louder(severity, threshold) != threshold),
{
}

/// The page of a change has all that the plan has to say: what requires
/// attention, who is affected by the move from the previous rules to those in
/// the bundle, the section of each source, and what drifted. On the first run
/// it says that it is the first.
pub proof fn law_changes_page_has_every_section(p: Outlook, i: int, k: int)
    ensures
        ({
            let page = changes_text(p);
            let rules = table::lookup(p.bundle.content, "rules"@);
            &&& 0 <= i < all_notices(p.deltas).len() && i < MAX_LISTED ==> text::holds(
                page,
                "- **"@ + all_notices(p.deltas)[i].id + "** `"@ + all_notices(p.deltas)[i].field
                    + "` — `"@ + all_notices(p.deltas)[i].from + "` → `"@ + all_notices(
                    p.deltas,
                )[i].to + "`\n"@,
            )
            &&& p.previous_rules is Some && rules is Some && 0 <= i < audience().len()
                && !obligations::impact(p.previous_rules->0, rules->0, audience()[i]).empty()
                ==> text::holds(
                page,
                impact_row(obligations::impact(p.previous_rules->0, rules->0, audience()[i])),
            )
            &&& 0 <= i < p.deltas.len() ==> exists|before: Seq<char>| #[trigger]
                text::begins(page, section_on(before, p.deltas[i]))
            &&& 0 <= i < p.deltas.len() && 0 <= k < p.deltas[i].drift.len() ==> text::holds(
                page,
                "- "@ + p.deltas[i].drift[k] + "\n"@,
            )
            &&& p.genesis ==> text::holds(
                page,
                "Genesis version — the full FedRAMP ruleset, submission schemas, and marketplace snapshot are signed for the first time. Nothing to diff against.\n\n"@,
            )
        }),
{
    let page = changes_text(p);
    let title = "# "@ + p.headline_text() + "\n\n| | |\n|---|---|\n| severity | `"@
        + p.severity.label_text() + "` |\n| upstream rules version | `"@ + p.upstream_version
        + "`"@;
    let digest = was_on(title, p) + " |\n| bundle digest | `"@ + p.bundle_sha256 + "` |\n"@;
    let opened = pins_on(digest, p.bundle.sources) + "\n"@;
    let born = genesis_on(opened, p);
    let attention = attention_on(born, p.deltas);
    let rules = table::lookup(p.bundle.content, "rules"@);
    let affected = impact_on(attention, p.previous_rules, rules);
    let sections = sections_on(affected, p.deltas);
    assert(page == drift_on(sections, p.deltas));
    lemma_drift_begins(sections, p.deltas);
    lemma_sections_begin(affected, p.deltas, i);
    text::lemma_begins_through(page, sections, affected);
    lemma_impact_begins(attention, p.previous_rules, rules);
    text::lemma_begins_through(page, affected, attention);
    law_attention_shows_every_notice(born, p.deltas, i);
    text::lemma_begins_through(page, attention, born);
    if 0 <= i < all_notices(p.deltas).len() && i < MAX_LISTED {
        let n = all_notices(p.deltas)[i];
        text::lemma_holds_begun(
            page,
            attention,
            "- **"@ + n.id + "** `"@ + n.field + "` — `"@ + n.from + "` → `"@ + n.to + "`\n"@,
        );
    }
    lemma_page_tells(page, attention, p.previous_rules, rules, i);
    if 0 <= i < p.deltas.len() {
        let before = sections_on(affected, p.deltas.take(i));
        text::lemma_begins_through(page, sections, section_on(before, p.deltas[i]));
        assert(text::begins(page, section_on(before, p.deltas[i])));
        if 0 <= k < p.deltas[i].drift.len() {
            law_drift_is_shown(sections, p.deltas, i, k);
        }
    }
    if p.genesis {
        let note = "Genesis version — the full FedRAMP ruleset, submission schemas, and marketplace snapshot are signed for the first time. Nothing to diff against.\n\n"@;
        text::lemma_holds_last(opened, note);
        text::lemma_holds_begun(page, born, note);
    }
}

proof fn lemma_page_tells(
    page: Seq<char>,
    out: Seq<char>,
    before: Option<Json>,
    after: Option<Json>,
    i: int,
)
    requires
        text::begins(page, impact_on(out, before, after)),
    ensures
        before is Some && after is Some && 0 <= i < audience().len() && !obligations::impact(
            before->0,
            after->0,
            audience()[i],
        ).empty() ==> text::holds(
            page,
            impact_row(obligations::impact(before->0, after->0, audience()[i])),
        ),
{
    if before is Some && after is Some && 0 <= i < audience().len() {
        let d = obligations::impact(before->0, after->0, audience()[i]);
        law_affected_are_told(out, before->0, after->0, i);
        if !d.empty() {
            text::lemma_holds_begun(page, impact_on(out, before, after), impact_row(d));
        }
    }
}

} // verus!
