//! Compare against the previous chain payload, and decide.

use vstd::prelude::*;

use crate::bundle;
use crate::bundle::{Bundle, Payload};
use crate::canon;
use crate::diff;
use crate::diff::kev;
use crate::diff::marketplace;
use crate::diff::oscal;
use crate::diff::rules;
use crate::diff::schemas;
use crate::diff::{Delta, Edit, Movement, Notice};
use crate::json;
use crate::json::{Doc, Json};
use crate::outside;
use crate::severity;
use crate::severity::Severity;
use crate::sources;
use crate::sources::{Capture, Snapshot};
use crate::table;
use crate::table::Table;
use crate::text;

verus! {

#[derive(Debug)]
pub struct Plan {
    pub genesis: bool,
    pub changed: bool,
    pub severity: Severity,
    pub upstream_version: String,
    pub previous_upstream_version: Option<String>,
    pub bundle_sha256: String,
    pub deltas: Vec<Delta>,
    pub bundle: Bundle,
    /// The previous ruleset, kept so the report can answer "who does this
    /// change affect" rather than only "what changed".
    pub previous_rules: Option<Doc>,
}

/// What a plan says.
pub struct Outlook {
    pub genesis: bool,
    pub changed: bool,
    pub severity: Severity,
    pub upstream_version: Seq<char>,
    pub previous_upstream_version: Option<Seq<char>>,
    pub bundle_sha256: Seq<char>,
    pub deltas: Seq<Movement>,
    pub bundle: Payload,
    pub previous_rules: Option<Json>,
}

pub open spec fn movements(deltas: Seq<Delta>) -> Seq<Movement> {
    deltas.map_values(|d: Delta| d@)
}

impl View for Plan {
    type V = Outlook;

    open spec fn view(&self) -> Outlook {
        Outlook {
            genesis: self.genesis,
            changed: self.changed,
            severity: self.severity,
            upstream_version: self.upstream_version@,
            previous_upstream_version: text::opt_text(self.previous_upstream_version),
            bundle_sha256: self.bundle_sha256@,
            deltas: movements(self.deltas@),
            bundle: self.bundle@,
            previous_rules: json::opt_owned(self.previous_rules),
        }
    }
}

pub open spec fn opt_payload(b: Option<&Bundle>) -> Option<Payload> {
    match b {
        Some(b) => Some(b@),
        None => None,
    }
}

// What a source holds.

/// How many rows each collection of some members has.
pub open spec fn row_counts(m: Seq<(Seq<char>, Json)>) -> Seq<(Seq<char>, usize)>
    decreases m.len(),
{
    if m.len() == 0 {
        Seq::empty()
    } else {
        let rest = row_counts(m.drop_last());
        match m.last().1 {
            Json::Array(rows) => table::put(rest, m.last().0, rows.len() as usize),
            _ => rest,
        }
    }
}

pub open spec fn one_count(name: Seq<char>, n: nat) -> Seq<(Seq<char>, usize)> {
    table::put(Seq::empty(), name, n as usize)
}

/// What is being signed, where there is nothing to diff against.
pub open spec fn counts_of(id: Seq<char>, content: Json) -> Seq<(Seq<char>, usize)> {
    if id == sources::RULES@ {
        one_count("rules"@, rules::flattened(content).0.len())
    } else if id == sources::SCHEMAS@ {
        one_count("files"@, json::members_of(Some(content)).len())
    } else if id == sources::MARKETPLACE@ {
        row_counts(json::members_of(Some(marketplace::data_of(content))))
    } else if id == sources::OSCAL@ {
        one_count("controls"@, oscal::controls_of(content).len())
    } else if id == sources::KEV@ {
        one_count("vulnerabilities"@, kev::vulnerabilities(content).len())
    } else {
        Seq::empty()
    }
}

fn single(name: &str, n: usize) -> (counts: Table<usize>)
    ensures
        counts@ == one_count(name@, n as nat),
{
    let mut counts: Table<usize> = Table::new();
    counts.insert(name.to_owned(), n);
    counts
}

fn count_rows(m: &Table<Doc>) -> (counts: Table<usize>)
    ensures
        counts@ == row_counts(m.members()),
{
    broadcast use {json::lemma_members, json::lemma_array_json};

    let mut counts: Table<usize> = Table::new();
    let ghost all = m.members();
    let mut i: usize = 0;
    while i < m.len()
        invariant
            i <= m@.len(),
            all == m.members(),
            all == json::deep(m@),
            counts@ == row_counts(all.take(i as int)),
        decreases m@.len() - i,
    {
        proof {
            assert(all.take(i + 1).drop_last() =~= all.take(i as int));
            assert(all.take(i + 1).last() == (m@[i as int].0, m@[i as int].1@));
        }
        match m.value(i).as_array() {
            Some(rows) => {
                counts.insert(m.key(i).to_owned(), rows.len());
            },
            None => {},
        }
        i += 1;
    }
    assert(all.take(all.len() as int) =~= all);
    counts
}

/// Genesis has nothing to diff against, so report what is being signed.
pub fn genesis_counts(snapshot: &Snapshot) -> (counts: Table<usize>)
    ensures
        counts@ == counts_of(snapshot@.id, snapshot@.content),
{
    broadcast use json::lemma_members;

    let id = snapshot.id.as_str();
    let content = &snapshot.content;
    if text::same_text(id, sources::RULES) {
        let (leaves, _drift) = rules::flatten(content);
        assert(leaves@.len() == leaves.members().len());
        single("rules", leaves.len())
    } else if text::same_text(id, sources::SCHEMAS) {
        match json::members_in(Some(content)) {
            Some(files) => {
                assert(files@.len() == files.members().len());
                single("files", files.len())
            },
            None => single("files", 0),
        }
    } else if text::same_text(id, sources::MARKETPLACE) {
        match json::members_in(Some(marketplace::data(content))) {
            Some(data) => count_rows(data),
            None => Table::new(),
        }
    } else if text::same_text(id, sources::OSCAL) {
        let controls = oscal::flatten(content);
        assert(controls@.len() == controls.members().len());
        single("controls", controls.len())
    } else if text::same_text(id, sources::KEV) {
        let entries = kev::flatten(content);
        assert(entries@.len() == entries.members().len());
        single("vulnerabilities", entries.len())
    } else {
        Table::new()
    }
}

// One source.

pub open spec fn no_strategy(id: Seq<char>) -> Movement {
    Movement {
        changed: true,
        severity: Severity::Minor,
        drift: seq!["no diff strategy for source `"@ + id + "`"@],
        ..diff::still(id)
    }
}

/// The semantic diff of a source.
pub open spec fn semantic(id: Seq<char>, before: Json, after: Json, ruleset: Json) -> Movement {
    if id == sources::RULES@ {
        rules::movement(before, after)
    } else if id == sources::SCHEMAS@ {
        schemas::movement(before, after)
    } else if id == sources::MARKETPLACE@ {
        marketplace::movement(before, after)
    } else if id == sources::OSCAL@ {
        oscal::movement(before, after, oscal::references(ruleset))
    } else if id == sources::KEV@ {
        kev::movement(before, after)
    } else {
        no_strategy(id)
    }
}

/// The digest is authoritative: a source whose substance moved is changed even
/// when the semantic diff cannot name what moved.
pub open spec fn acknowledged(id: Seq<char>, found: Movement) -> Movement {
    if found.changed {
        found
    } else {
        Movement {
            changed: true,
            severity: severity::louder(found.severity, Severity::Metadata),
            drift: found.drift.push(
                "substance digest moved but the semantic diff found nothing in `"@ + id + "`"@,
            ),
            ..found
        }
    }
}

pub open spec fn count_lines(counts: Seq<(Seq<char>, usize)>) -> Seq<Seq<char>> {
    counts.map_values(|c: (Seq<char>, usize)| text::grouped(c.1 as nat) + " "@ + c.0)
}

pub open spec fn added_note(id: Seq<char>, counts: Seq<(Seq<char>, usize)>) -> Seq<char> {
    if counts.len() == 0 {
        id + " added to the bundle"@
    } else {
        id + " added to the bundle"@ + "; "@ + text::join(count_lines(counts), ", "@)
    }
}

/// A source that the previous payload lacks is summarised rather than listed
/// addition by addition. What the semantic diff reported as drift stays.
pub open spec fn summarised(
    id: Seq<char>,
    found: Movement,
    counts: Seq<(Seq<char>, usize)>,
) -> Movement {
    Movement {
        added: Seq::empty(),
        removed: Seq::empty(),
        modified: Seq::empty(),
        highlights: Seq::empty(),
        drift: seq![added_note(id, counts)] + found.drift,
        counts,
        ..found
    }
}

/// What moved in one source since the previous payload.
pub open spec fn delta_of(
    snapshot: Capture,
    previous: Option<Payload>,
    ruleset: Json,
) -> Movement {
    let id = snapshot.id;
    match previous {
        None => Movement {
            changed: true,
            severity: Severity::Major,
            counts: counts_of(id, snapshot.content),
            ..diff::still(id)
        },
        Some(previous) => {
            let before = table::lookup(previous.content, id);
            if bundle::opt_record_text(table::lookup(previous.sources, id)) == Some(
                snapshot.substance_sha256,
            ) {
                diff::still(id)
            } else {
                let found = acknowledged(
                    id,
                    semantic(id, json::or_null(before), snapshot.content, ruleset),
                );
                if before is None {
                    summarised(id, found, counts_of(id, snapshot.content))
                } else {
                    found
                }
            }
        },
    }
}

fn semantic_delta(id: &str, before: &Doc, after: &Doc, ruleset: &Doc) -> (delta: Delta)
    ensures
        delta@ == semantic(id@, before@, after@, ruleset@),
{
    if text::same_text(id, sources::RULES) {
        rules::diff(before, after)
    } else if text::same_text(id, sources::SCHEMAS) {
        schemas::diff(before, after)
    } else if text::same_text(id, sources::MARKETPLACE) {
        marketplace::diff(before, after)
    } else if text::same_text(id, sources::OSCAL) {
        oscal::diff(before, after, &oscal::referenced_controls(ruleset))
    } else if text::same_text(id, sources::KEV) {
        kev::diff(before, after)
    } else {
        let mut delta = Delta::new(id);
        delta.changed = true;
        delta.severity = Severity::Minor;
        let mut line = "no diff strategy for source `".to_owned();
        line.push_str(id);
        line.push_str("`");
        assert(text::texts(delta.drift@.push(line)) =~= seq![line@]);
        delta.drift.push(line);
        delta
    }
}

fn count_texts(counts: &Table<usize>) -> (lines: Vec<String>)
    ensures
        text::texts(lines@) == count_lines(counts@),
{
    let mut lines: Vec<String> = Vec::new();
    let mut i: usize = 0;
    while i < counts.len()
        invariant
            i <= counts@.len(),
            lines@.len() == i,
            forall|j: int|
                0 <= j < i ==> (#[trigger] lines@[j])@ == text::grouped(counts@[j].1 as nat) + " "@
                    + counts@[j].0,
        decreases counts@.len() - i,
    {
        let mut line = text::grouped_text(*counts.value(i) as u64);
        line.push_str(" ");
        line.push_str(counts.key(i));
        lines.push(line);
        i += 1;
    }
    assert(text::texts(lines@) =~= count_lines(counts@));
    lines
}

fn summarise(id: &str, delta: &mut Delta, counts: Table<usize>)
    ensures
        final(delta)@ == summarised(id@, old(delta)@, counts@),
{
    let mut line = id.to_owned();
    line.push_str(" added to the bundle");
    if counts.len() > 0 {
        line.push_str("; ");
        line.push_str(text::join_texts(&count_texts(&counts), ", ").as_str());
    }
    delta.added = Vec::new();
    delta.removed = Vec::new();
    delta.modified = Vec::new();
    delta.highlights = Vec::new();
    let ghost reported = text::texts(delta.drift@);
    let mut drift: Vec<String> = vec![line];
    drift.append(&mut delta.drift);
    delta.drift = drift;
    delta.counts = counts;
    assert(delta@.added =~= Seq::<Seq<char>>::empty());
    assert(delta@.removed =~= Seq::<Seq<char>>::empty());
    assert(delta@.modified =~= Seq::<Edit>::empty());
    assert(delta@.highlights =~= Seq::<Notice>::empty());
    assert(delta@.drift =~= seq![added_note(id@, counts@)] + reported);
}

pub fn delta_for(snapshot: &Snapshot, previous: Option<&Bundle>, ruleset: &Doc) -> (delta: Delta)
    ensures
        delta@ == delta_of(snapshot@, opt_payload(previous), ruleset@),
{
    let id = snapshot.id.as_str();
    match previous {
        None => {
            let mut delta = Delta::new(id);
            delta.changed = true;
            delta.severity = Severity::Major;
            delta.counts = genesis_counts(snapshot);
            delta
        },
        Some(previous) => {
            let unchanged = match previous.substance(id) {
                Some(digest) => text::same_text(digest, snapshot.substance_sha256.as_str()),
                None => false,
            };
            if unchanged {
                return Delta::new(id);
            }
            let before = previous.section(id);
            let mut delta = semantic_delta(
                id,
                &json::value_or_null(before),
                &snapshot.content,
                ruleset,
            );
            if !delta.changed {
                delta.changed = true;
                delta.severity = severity::max_severity(delta.severity, Severity::Metadata);
                let mut line =
                    "substance digest moved but the semantic diff found nothing in `".to_owned();
                line.push_str(id);
                line.push_str("`");
                proof {
                    text::lemma_texts_push(delta.drift@, line);
                }
                delta.drift.push(line);
            }
            if before.is_none() {
                summarise(id, &mut delta, genesis_counts(snapshot));
            }
            delta
        },
    }
}

// The plan.

pub open spec fn deltas_of(
    snapshots: Seq<Capture>,
    previous: Option<Payload>,
    ruleset: Json,
) -> Seq<Movement> {
    snapshots.map_values(|s: Capture| delta_of(s, previous, ruleset))
}

/// The loudest severity among some deltas.
pub open spec fn loudest(deltas: Seq<Movement>) -> Severity
    decreases deltas.len(),
{
    if deltas.len() == 0 {
        Severity::Unchanged
    } else {
        severity::louder(loudest(deltas.drop_last()), deltas.last().severity)
    }
}

pub open spec fn any_changed(deltas: Seq<Movement>) -> bool {
    exists|i: int| 0 <= i < deltas.len() && (#[trigger] deltas[i]).changed
}

pub open spec fn or_empty(r: Result<Seq<char>, Seq<char>>) -> Seq<char> {
    match r {
        Ok(s) => s,
        Err(_) => ""@,
    }
}

/// What to do about some snapshots, given the previous payload.
pub open spec fn decided(snapshots: Seq<Capture>, previous: Option<Payload>) -> Outlook {
    let bundle = bundle::bundled(snapshots);
    let ruleset = json::or_null(table::lookup(bundle.content, sources::RULES@));
    let deltas = deltas_of(snapshots, previous, ruleset);
    Outlook {
        genesis: previous is None,
        changed: previous is None || any_changed(deltas),
        severity: if previous is None {
            Severity::Major
        } else {
            loudest(deltas)
        },
        upstream_version: bundle.upstream_version,
        previous_upstream_version: match previous {
            Some(p) => Some(p.upstream_version),
            None => None,
        },
        bundle_sha256: or_empty(bundle::bundle_digest(bundle)),
        deltas,
        bundle,
        previous_rules: match previous {
            Some(p) => table::lookup(p.content, sources::RULES@),
            None => None,
        },
    }
}

fn max_of(deltas: &Vec<Delta>) -> (severity: Severity)
    ensures
        severity == loudest(movements(deltas@)),
{
    let mut loudest_yet = Severity::Unchanged;
    let ghost all = movements(deltas@);
    let mut i: usize = 0;
    while i < deltas.len()
        invariant
            i <= deltas@.len(),
            all == movements(deltas@),
            loudest_yet == loudest(all.take(i as int)),
        decreases deltas@.len() - i,
    {
        proof {
            assert(all.take(i + 1).drop_last() =~= all.take(i as int));
            assert(all.take(i + 1).last() == deltas@[i as int]@);
        }
        loudest_yet = severity::max_severity(loudest_yet, deltas[i].severity);
        i += 1;
    }
    assert(all.take(all.len() as int) =~= all);
    loudest_yet
}

fn some_changed(deltas: &Vec<Delta>) -> (yes: bool)
    ensures
        yes == any_changed(movements(deltas@)),
{
    let mut i: usize = 0;
    while i < deltas.len()
        invariant
            i <= deltas@.len(),
            forall|j: int| 0 <= j < i ==> !(#[trigger] movements(deltas@)[j]).changed,
        decreases deltas@.len() - i,
    {
        if deltas[i].changed {
            assert(movements(deltas@)[i as int].changed);
            return true;
        }
        i += 1;
    }
    false
}

/// Decide on the substance digest; run the semantic diff only where it moved.
pub fn compare(snapshots: &[Snapshot], previous: Option<&Bundle>) -> (plan: Plan)
    ensures
        plan@ == decided(bundle::captures(snapshots@), opt_payload(previous)),
{
    let bundle = Bundle::from_snapshots(snapshots);
    let ruleset = json::value_or_null(bundle.section(sources::RULES));
    let ghost all = bundle::captures(snapshots@);
    let ghost before = opt_payload(previous);
    let mut deltas: Vec<Delta> = Vec::new();
    let mut i: usize = 0;
    while i < snapshots.len()
        invariant
            i <= snapshots@.len(),
            all == bundle::captures(snapshots@),
            before == opt_payload(previous),
            deltas@.len() == i,
            forall|j: int|
                0 <= j < i ==> (#[trigger] deltas@[j])@ == delta_of(all[j], before, ruleset@),
        decreases snapshots@.len() - i,
    {
        deltas.push(delta_for(&snapshots[i], previous, &ruleset));
        i += 1;
    }
    assert(movements(deltas@) =~= deltas_of(all, before, ruleset@));
    let genesis = previous.is_none();
    let (previous_rules, previous_upstream_version) = match previous {
        Some(p) => (
            json::duplicate_of(p.section(sources::RULES)),
            Some(p.upstream_version.clone()),
        ),
        None => (None, None),
    };
    Plan {
        genesis,
        changed: genesis || some_changed(&deltas),
        severity: if genesis {
            Severity::Major
        } else {
            max_of(&deltas)
        },
        upstream_version: bundle.upstream_version.clone(),
        previous_upstream_version,
        bundle_sha256: match bundle.digest() {
            Ok(digest) => digest,
            Err(_) => "".to_owned(),
        },
        deltas,
        bundle,
        previous_rules,
    }
}

/// The first delta of a source.
pub open spec fn first_delta(deltas: Seq<Movement>, source: Seq<char>) -> Option<Movement>
    decreases deltas.len(),
{
    if deltas.len() == 0 {
        None
    } else if deltas[0].source == source {
        Some(deltas[0])
    } else {
        first_delta(deltas.drop_first(), source)
    }
}

proof fn lemma_first_delta(deltas: Seq<Movement>, source: Seq<char>, i: int)
    requires
        0 <= i <= deltas.len(),
        forall|j: int| 0 <= j < i ==> (#[trigger] deltas[j]).source != source,
    ensures
        i == deltas.len() ==> first_delta(deltas, source) is None,
        i < deltas.len() && deltas[i].source == source ==> first_delta(deltas, source) == Some(
            deltas[i],
        ),
    decreases deltas.len(),
{
    if i > 0 {
        assert(deltas[0].source != source);
        assert forall|j: int| 0 <= j < i - 1 implies (#[trigger] deltas.drop_first()[j]).source
            != source by {
            assert(deltas[j + 1].source != source);
        }
        lemma_first_delta(deltas.drop_first(), source, i - 1);
    }
}

/// The sources that moved, in order.
pub open spec fn moved(deltas: Seq<Movement>) -> Seq<Seq<char>>
    decreases deltas.len(),
{
    if deltas.len() == 0 {
        Seq::empty()
    } else {
        let rest = moved(deltas.drop_last());
        if deltas.last().changed {
            rest.push(deltas.last().source)
        } else {
            rest
        }
    }
}

impl Outlook {
    pub open spec fn headline_text(self) -> Seq<char> {
        if self.genesis {
            "FedRAMP rules "@ + self.upstream_version + " — genesis"@
        } else if !self.changed {
            "FedRAMP sources unchanged"@
        } else {
            self.severity.headline_text() + ": "@ + self.upstream_version + " ("@ + text::join(
                moved(self.deltas),
                ", "@,
            ) + ")"@
        }
    }
}

pub open spec fn opt_movement(d: Option<&Delta>) -> Option<Movement> {
    match d {
        Some(d) => Some(d@),
        None => None,
    }
}

impl Plan {
    pub fn delta(&self, source: &str) -> (found: Option<&Delta>)
        ensures
            opt_movement(found) == first_delta(self@.deltas, source@),
    {
        let mut i: usize = 0;
        while i < self.deltas.len()
            invariant
                i <= self.deltas@.len(),
                forall|j: int| 0 <= j < i ==> (#[trigger] self@.deltas[j]).source != source@,
            decreases self.deltas@.len() - i,
        {
            if text::same_text(self.deltas[i].source.as_str(), source) {
                proof {
                    lemma_first_delta(self@.deltas, source@, i as int);
                }
                return Some(&self.deltas[i]);
            }
            i += 1;
        }
        proof {
            lemma_first_delta(self@.deltas, source@, i as int);
        }
        None
    }

    fn moved_sources(&self) -> (names: Vec<String>)
        ensures
            text::texts(names@) == moved(self@.deltas),
    {
        let mut names: Vec<String> = Vec::new();
        let ghost all = self@.deltas;
        let mut i: usize = 0;
        assert(text::texts(names@) =~= moved(all.take(0)));
        while i < self.deltas.len()
            invariant
                i <= self.deltas@.len(),
                all == movements(self.deltas@),
                text::texts(names@) == moved(all.take(i as int)),
            decreases self.deltas@.len() - i,
        {
            proof {
                assert(all.take(i + 1).drop_last() =~= all.take(i as int));
                assert(all.take(i + 1).last() == self.deltas@[i as int]@);
            }
            if self.deltas[i].changed {
                let name = self.deltas[i].source.clone();
                proof {
                    text::lemma_texts_push(names@, name);
                }
                names.push(name);
            }
            i += 1;
        }
        assert(all.take(all.len() as int) =~= all);
        names
    }

    pub fn headline(&self) -> (line: String)
        ensures
            line@ == self@.headline_text(),
    {
        if self.genesis {
            let mut line = "FedRAMP rules ".to_owned();
            line.push_str(self.upstream_version.as_str());
            line.push_str(" — genesis");
            return line;
        }
        if !self.changed {
            return "FedRAMP sources unchanged".to_owned();
        }
        let mut line = self.severity.headline().to_owned();
        line.push_str(": ");
        line.push_str(self.upstream_version.as_str());
        line.push_str(" (");
        line.push_str(text::join_texts(&self.moved_sources(), ", ").as_str());
        line.push_str(")");
        line
    }
}

// Laws.

/// The first plan of a chain is always a change, and a major one.
pub proof fn law_genesis_is_a_major_change(snapshots: Seq<Capture>)
    ensures
        decided(snapshots, None).genesis,
        decided(snapshots, None).changed,
        decided(snapshots, None).severity == Severity::Major,
{
}

proof fn lemma_all_still(deltas: Seq<Movement>)
    requires
        forall|i: int|
            0 <= i < deltas.len() ==> (#[trigger] deltas[i]) == diff::still(deltas[i].source),
    ensures
        loudest(deltas) == Severity::Unchanged,
    decreases deltas.len(),
{
    if deltas.len() > 0 {
        assert(deltas[deltas.len() - 1] == diff::still(deltas.last().source));
        assert forall|i: int| 0 <= i < deltas.drop_last().len() implies (
        #[trigger] deltas.drop_last()[i]) == diff::still(deltas.drop_last()[i].source) by {
            assert(deltas.drop_last()[i] == deltas[i]);
        }
        lemma_all_still(deltas.drop_last());
    }
}

/// The previous payload has the substance of every snapshot.
pub open spec fn same_substance(snapshots: Seq<Capture>, previous: Payload) -> bool {
    forall|i: int|
        0 <= i < snapshots.len() ==> bundle::opt_record_text(
            table::lookup(previous.sources, (#[trigger] snapshots[i]).id),
        ) == Some(snapshots[i].substance_sha256)
}

/// Where no source's substance moved nothing has changed, whatever else did.
pub proof fn law_same_substance_is_unchanged(snapshots: Seq<Capture>, previous: Payload)
    requires
        same_substance(snapshots, previous),
    ensures
        !decided(snapshots, Some(previous)).changed,
        decided(snapshots, Some(previous)).severity == Severity::Unchanged,
{
    let plan = decided(snapshots, Some(previous));
    assert forall|i: int| 0 <= i < plan.deltas.len() implies (#[trigger] plan.deltas[i])
        == diff::still(plan.deltas[i].source) by {
        assert(bundle::opt_record_text(table::lookup(previous.sources, snapshots[i].id)) == Some(
            snapshots[i].substance_sha256,
        ));
    }
    lemma_all_still(plan.deltas);
}

/// A source whose substance moved is reported as changed, even where the
/// semantic diff names nothing.
pub proof fn law_moved_substance_is_a_change(
    snapshots: Seq<Capture>,
    previous: Payload,
    i: int,
)
    requires
        0 <= i < snapshots.len(),
        bundle::opt_record_text(table::lookup(previous.sources, snapshots[i].id)) != Some(
            snapshots[i].substance_sha256,
        ),
    ensures
        decided(snapshots, Some(previous)).deltas[i].changed,
        decided(snapshots, Some(previous)).changed,
{
    assert(decided(snapshots, Some(previous)).deltas[i].changed);
}

proof fn lemma_sources_ordered(snapshots: Seq<Capture>)
    ensures
        table::ordered(bundle::sources_of(snapshots)),
    decreases snapshots.len(),
{
    if snapshots.len() > 0 {
        lemma_sources_ordered(snapshots.drop_last());
        table::lemma_put_ordered(
            bundle::sources_of(snapshots.drop_last()),
            snapshots.last().id,
            bundle::record_of(snapshots.last()),
        );
    }
}

pub open spec fn distinct_ids(snapshots: Seq<Capture>) -> bool {
    forall|i: int, j: int|
        0 <= i < j < snapshots.len() ==> (#[trigger] snapshots[i]).id != (
        #[trigger] snapshots[j]).id
}

proof fn lemma_source_recorded(snapshots: Seq<Capture>, i: int)
    requires
        distinct_ids(snapshots),
        0 <= i < snapshots.len(),
    ensures
        table::lookup(bundle::sources_of(snapshots), snapshots[i].id) == Some(
            bundle::record_of(snapshots[i]),
        ),
    decreases snapshots.len(),
{
    let rest = snapshots.drop_last();
    lemma_sources_ordered(rest);
    table::lemma_put_lookup(
        bundle::sources_of(rest),
        snapshots.last().id,
        bundle::record_of(snapshots.last()),
        snapshots[i].id,
    );
    if i < snapshots.len() - 1 {
        assert(snapshots[i].id != snapshots[snapshots.len() - 1].id);
        assert forall|a: int, b: int| 0 <= a < b < rest.len() implies (#[trigger] rest[a]).id != (
        #[trigger] rest[b]).id by {
            assert(snapshots[a].id != snapshots[b].id);
        }
        lemma_source_recorded(rest, i);
    }
}

/// A second run against the same pins changes nothing, and its payload is the
/// same.
pub proof fn law_rerun_is_a_no_op(snapshots: Seq<Capture>)
    requires
        distinct_ids(snapshots),
    ensures
        ({
            let first = decided(snapshots, None);
            let second = decided(snapshots, Some(first.bundle));
            &&& !second.changed
            &&& second.severity == Severity::Unchanged
            &&& second.bundle == first.bundle
            &&& second.bundle_sha256 == first.bundle_sha256
        }),
{
    let bundle = bundle::bundled(snapshots);
    assert forall|i: int| 0 <= i < snapshots.len() implies bundle::opt_record_text(
        table::lookup(bundle.sources, (#[trigger] snapshots[i]).id),
    ) == Some(snapshots[i].substance_sha256) by {
        lemma_source_recorded(snapshots, i);
    }
    law_same_substance_is_unchanged(snapshots, bundle);
}

proof fn lemma_volatile_paths_diverge(id: Seq<char>)
    requires
        sources::registration(id) is Some,
    ensures
        canon::all_diverge(sources::registration(id)->Some_0.volatile),
{
    reveal_strlit("uuid");
    reveal_strlit("metadata");
    reveal_strlit("last-modified");
    reveal_strlit("oscal-version");
    reveal_with_fuel(canon::diverge, 4);
    assert("uuid"@.len() != "metadata"@.len());
    assert("last-modified"@[0] != "oscal-version"@[0]);
    let uuid = seq!["catalog"@, "uuid"@];
    let modified = seq!["catalog"@, "metadata"@, "last-modified"@];
    let version = seq!["catalog"@, "metadata"@, "oscal-version"@];
    assert(uuid.drop_first()[0] == "uuid"@);
    assert(modified.drop_first()[0] == "metadata"@);
    assert(version.drop_first()[0] == "metadata"@);
    assert(modified.drop_first().drop_first()[0] == "last-modified"@);
    assert(version.drop_first().drop_first()[0] == "oscal-version"@);
    assert(canon::diverge(uuid, modified));
    assert(canon::diverge(uuid, version));
    assert(canon::diverge(modified, version));
}

/// Churn in what a source strips does not reach its substance, and so is no
/// change.
pub proof fn law_volatile_churn_keeps_the_substance(
    id: Seq<char>,
    content: Json,
    k: int,
    value: Json,
)
    requires
        outside::well_formed(content),
        sources::registration(id) matches Some(r) && 0 <= k < r.volatile.len(),
    ensures
        sources::substance_of(
            id,
            canon::rewritten(content, sources::registration(id)->Some_0.volatile[k], value),
        ) == sources::substance_of(id, content),
{
    lemma_volatile_paths_diverge(id);
    canon::law_stripped_values_do_not_count(
        content,
        sources::registration(id)->Some_0.volatile,
        k,
        value,
    );
}

proof fn lemma_loudest(deltas: Seq<Movement>, i: int)
    requires
        0 <= i < deltas.len(),
    ensures
        loudest(deltas).rank() >= deltas[i].severity.rank(),
    decreases deltas.len(),
{
    if i < deltas.len() - 1 {
        lemma_loudest(deltas.drop_last(), i);
    }
}

proof fn lemma_loudest_attained(deltas: Seq<Movement>) -> (i: int)
    requires
        deltas.len() > 0,
        loudest(deltas) != Severity::Unchanged,
    ensures
        0 <= i < deltas.len(),
        deltas[i].severity == loudest(deltas),
    decreases deltas.len(),
{
    let last = deltas.len() - 1;
    if loudest(deltas) == deltas[last].severity {
        last
    } else {
        lemma_loudest_attained(deltas.drop_last())
    }
}

/// A plan is as loud as its loudest source, and no louder: a rules change is
/// not buried under marketplace churn.
pub proof fn law_severity_is_the_loudest(snapshots: Seq<Capture>, previous: Payload)
    ensures
        ({
            let plan = decided(snapshots, Some(previous));
            &&& forall|i: int|
                0 <= i < plan.deltas.len() ==> plan.severity.rank() >= (
                #[trigger] plan.deltas[i]).severity.rank()
            &&& plan.severity != Severity::Unchanged ==> exists|i: int|
                0 <= i < plan.deltas.len() && (#[trigger] plan.deltas[i]).severity == plan.severity
        }),
{
    let plan = decided(snapshots, Some(previous));
    assert forall|i: int| 0 <= i < plan.deltas.len() implies plan.severity.rank() >= (
    #[trigger] plan.deltas[i]).severity.rank() by {
        lemma_loudest(plan.deltas, i);
    }
    if plan.severity != Severity::Unchanged {
        let i = lemma_loudest_attained(plan.deltas);
        assert(plan.deltas[i].severity == plan.severity);
    }
}

// What a plan says of each source.

/// On the first run every source is new: a major change that lists nothing and
/// counts what there is.
pub proof fn law_first_sight_counts_everything(snapshot: Capture, ruleset: Json)
    ensures
        ({
            let d = delta_of(snapshot, None, ruleset);
            &&& d.source == snapshot.id
            &&& d.changed
            &&& d.severity == Severity::Major
            &&& d.added.len() == 0 && d.removed.len() == 0 && d.modified.len() == 0
            &&& d.highlights.len() == 0 && d.drift.len() == 0
            &&& d.counts == counts_of(snapshot.id, snapshot.content)
        }),
{
}

/// A source whose substance has the digest on record did not move.
pub proof fn law_same_digest_does_not_move(snapshot: Capture, previous: Payload, ruleset: Json)
    requires
        table::lookup(previous.sources, snapshot.id) matches Some(r) && r.substance_sha256
            == snapshot.substance_sha256,
    ensures
        ({
            let d = delta_of(snapshot, Some(previous), ruleset);
            &&& d.source == snapshot.id
            &&& !d.changed
            &&& d.severity == Severity::Unchanged
            &&& d.quiet()
            &&& d.highlights.len() == 0 && d.drift.len() == 0
        }),
{
}

/// What a plan takes over from a source's own comparison: everything it found,
/// and at least a change of metadata where it found none.
pub open spec fn takes_over(d: Movement, found: Movement) -> bool {
    &&& d.added == found.added
    &&& d.removed == found.removed
    &&& d.modified == found.modified
    &&& d.highlights == found.highlights
    &&& d.counts == found.counts
    &&& d.changed
    &&& found.changed ==> d.severity == found.severity && d.drift == found.drift
    &&& !found.changed ==> d.severity == (if found.severity.rank() > Severity::Metadata.rank() {
        found.severity
    } else {
        Severity::Metadata
    }) && d.drift.len() == found.drift.len() + 1
}

proof fn lemma_ids()
    ensures
        "rules"@ != "schemas"@,
        "rules"@ != "marketplace"@,
        "rules"@ != "oscal"@,
        "rules"@ != "kev"@,
        "schemas"@ != "marketplace"@,
        "schemas"@ != "oscal"@,
        "schemas"@ != "kev"@,
        "marketplace"@ != "oscal"@,
        "marketplace"@ != "kev"@,
        "oscal"@ != "kev"@,
{
    reveal_strlit("rules");
    reveal_strlit("schemas");
    reveal_strlit("marketplace");
    reveal_strlit("oscal");
    reveal_strlit("kev");
    assert("rules"@.len() == 5);
    assert("schemas"@.len() == 7);
    assert("marketplace"@.len() == 11);
    assert("oscal"@.len() == 5);
    assert("kev"@.len() == 3);
    assert("rules"@[0] == 'r');
    assert("oscal"@[0] == 'o');
}

/// A source that moved is compared, content before against content now, in the
/// way of its own kind; the catalog is compared in the light of the rules.
pub proof fn law_each_source_is_compared_in_its_way(
    snapshot: Capture,
    previous: Payload,
    ruleset: Json,
    before: Json,
)
    requires
        bundle::opt_record_text(table::lookup(previous.sources, snapshot.id)) != Some(
            snapshot.substance_sha256,
        ),
        table::lookup(previous.content, snapshot.id) == Some(before),
    ensures
        ({
            let d = delta_of(snapshot, Some(previous), ruleset);
            let after = snapshot.content;
            &&& snapshot.id == "rules"@ ==> takes_over(d, rules::movement(before, after))
            &&& snapshot.id == "schemas"@ ==> takes_over(d, schemas::movement(before, after))
            &&& snapshot.id == "marketplace"@ ==> takes_over(
                d,
                marketplace::movement(before, after),
            )
            &&& snapshot.id == "oscal"@ ==> takes_over(
                d,
                oscal::movement(before, after, oscal::references(ruleset)),
            )
            &&& snapshot.id == "kev"@ ==> takes_over(d, kev::movement(before, after))
        }),
{
    lemma_ids();
}

/// A source that no comparison knows is a minor change that says so.
pub proof fn law_unknown_source_is_a_minor_change(
    snapshot: Capture,
    previous: Payload,
    ruleset: Json,
)
    requires
        bundle::opt_record_text(table::lookup(previous.sources, snapshot.id)) != Some(
            snapshot.substance_sha256,
        ),
        table::lookup(previous.content, snapshot.id) is Some,
        snapshot.id != "rules"@ && snapshot.id != "schemas"@ && snapshot.id != "marketplace"@
            && snapshot.id != "oscal"@ && snapshot.id != "kev"@,
    ensures
        ({
            let d = delta_of(snapshot, Some(previous), ruleset);
            &&& d.changed
            &&& d.severity == Severity::Minor
            &&& d.drift.len() == 1
            &&& d.source == snapshot.id
        }),
{
}

/// A source that is new to the bundle is not listed item by item: it is counted,
/// and a note says that it was added.
pub proof fn law_new_source_is_counted(snapshot: Capture, previous: Payload, ruleset: Json)
    requires
        bundle::opt_record_text(table::lookup(previous.sources, snapshot.id)) != Some(
            snapshot.substance_sha256,
        ),
        table::lookup(previous.content, snapshot.id) is None,
    ensures
        ({
            let d = delta_of(snapshot, Some(previous), ruleset);
            &&& d.changed
            &&& d.added.len() == 0 && d.removed.len() == 0 && d.modified.len() == 0
            &&& d.highlights.len() == 0
            &&& d.counts == counts_of(snapshot.id, snapshot.content)
            &&& d.drift.len() > 0 && text::begins(
                d.drift[0],
                snapshot.id + " added to the bundle"@,
            )
            &&& snapshot.id == "rules"@ && rules::movement(Json::Null, snapshot.content).changed
                ==> d.severity == rules::movement(Json::Null, snapshot.content).severity
            &&& snapshot.id == "schemas"@ && schemas::movement(
                Json::Null,
                snapshot.content,
            ).changed ==> d.severity == schemas::movement(Json::Null, snapshot.content).severity
            &&& snapshot.id == "kev"@ && kev::movement(Json::Null, snapshot.content).changed
                ==> d.severity == kev::movement(Json::Null, snapshot.content).severity
        }),
{
    lemma_ids();
    let id = snapshot.id;
    let counts = counts_of(id, snapshot.content);
    let head = id + " added to the bundle"@;
    text::lemma_begins_self(head);
    let tail = "; "@ + text::join(count_lines(counts), ", "@);
    text::lemma_begins_more(head, tail, head);
    assert(head + "; "@ + text::join(count_lines(counts), ", "@) =~= head + tail);
}

proof fn lemma_rows_counted(m: Seq<(Seq<char>, Json)>, name: Seq<char>)
    requires
        table::ordered(m),
    ensures
        table::ordered(row_counts(m)),
        table::lookup(row_counts(m), name) == (match table::lookup(m, name) {
            Some(Json::Array(rows)) => Some(rows.len() as usize),
            _ => None,
        }),
    decreases m.len(),
{
    if m.len() > 0 {
        let front = m.drop_last();
        let last = m[m.len() - 1];
        assert(table::ordered(front)) by {
            assert forall|i: int, j: int| 0 <= i < j < front.len() implies text::text_lt(
                #[trigger] front[i].0,
                #[trigger] front[j].0,
            ) by {
                assert(text::text_lt(m[i].0, m[j].0));
            }
        }
        lemma_rows_counted(front, name);
        table::lemma_lookup_entry(m, m.len() - 1);
        let i = table::lemma_lookup_index(m, name);
        let j = table::lemma_lookup_index(front, name);
        if let Json::Array(rows) = last.1 {
            table::lemma_put_ordered(row_counts(front), last.0, rows.len() as usize);
            table::lemma_put_lookup(row_counts(front), last.0, rows.len() as usize, name);
        }
        if name == last.0 {
            if table::lookup(front, name) is Some {
                text::lemma_text_lt_irreflexive(name);
                assert(text::text_lt(m[j].0, m[m.len() - 1].0));
            }
        } else {
            if table::lookup(m, name) is Some {
                assert(front[i].0 == name);
                table::lemma_lookup_entry(front, i);
            }
            if table::lookup(front, name) is Some {
                assert(m[j].0 == name);
                table::lemma_lookup_entry(m, j);
            }
        }
    }
}

/// Sources are counted in their own units: rules by their leaves, schemas by
/// their files, the catalog by its controls, the vulnerability list by its
/// entries, and the marketplace by the rows of each of its collections.
pub proof fn law_sources_are_counted_in_their_units(content: Json, name: Seq<char>)
    ensures
        table::lookup(counts_of("rules"@, content), "rules"@) == Some(
            rules::flattened(content).0.len() as usize,
        ),
        table::lookup(counts_of("schemas"@, content), "files"@) == Some(
            json::members_of(Some(content)).len() as usize,
        ),
        table::lookup(counts_of("oscal"@, content), "controls"@) == Some(
            oscal::controls_of(content).len() as usize,
        ),
        table::lookup(counts_of("kev"@, content), "vulnerabilities"@) == Some(
            kev::vulnerabilities(content).len() as usize,
        ),
        (content.get("data"@) matches Some(Json::Object(data)) && table::ordered(data))
            ==> table::lookup(counts_of("marketplace"@, content), name) == (match content.get(
            "data"@,
        )->0.get(name) {
            Some(Json::Array(rows)) => Some(rows.len() as usize),
            _ => None,
        }),
{
    lemma_ids();
    if let Some(Json::Object(data)) = content.get("data"@) {
        if table::ordered(data) {
            lemma_rows_counted(data, name);
        }
    }
}

/// A plan has one delta for each snapshot, in order, compared against the rules
/// in its own bundle; it is the first exactly where there was none before, and
/// changed exactly where it is the first or a source is.
pub proof fn law_plan_covers_every_snapshot(
    snapshots: Seq<Capture>,
    previous: Option<Payload>,
    i: int,
)
    ensures
        ({
            let plan = decided(snapshots, previous);
            &&& plan.deltas.len() == snapshots.len()
            &&& 0 <= i < snapshots.len() ==> plan.deltas[i] == delta_of(
                snapshots[i],
                previous,
                json::or_null(table::lookup(plan.bundle.content, "rules"@)),
            )
            &&& plan.bundle == bundle::bundled(snapshots)
            &&& plan.genesis <==> previous is None
            &&& plan.changed <==> previous is None || exists|k: int|
                0 <= k < plan.deltas.len() && (#[trigger] plan.deltas[k]).changed
            &&& plan.upstream_version == plan.bundle.upstream_version
            &&& previous is None ==> plan.previous_upstream_version is None
                && plan.previous_rules is None
            &&& previous matches Some(p) ==> plan.previous_upstream_version == Some(
                p.upstream_version,
            ) && plan.previous_rules == table::lookup(p.content, "rules"@)
            &&& bundle::bundle_digest(plan.bundle) matches Ok(digest) ==> plan.bundle_sha256
                == digest
        }),
{
}

/// A headline says that this is the first version, or that nothing changed, or
/// how loud the change is, to which version, and in which sources.
pub proof fn law_headline_says_what_changed(p: Outlook, i: int)
    ensures
        p.genesis ==> p.headline_text() == "FedRAMP rules "@ + p.upstream_version + " — genesis"@,
        !p.genesis && !p.changed ==> p.headline_text() == "FedRAMP sources unchanged"@,
        !p.genesis && p.changed ==> text::begins(
            p.headline_text(),
            p.severity.headline_text() + ": "@ + p.upstream_version + " ("@,
        ) && p.headline_text() == p.severity.headline_text() + ": "@ + p.upstream_version + " ("@
            + text::join(moved(p.deltas), ", "@) + ")"@,
{
    let head = p.severity.headline_text() + ": "@ + p.upstream_version + " ("@;
    let tail = text::join(moved(p.deltas), ", "@) + ")"@;
    text::lemma_begins_self(head);
    text::lemma_begins_more(head, tail, head);
    assert(head + text::join(moved(p.deltas), ", "@) + ")"@ =~= head + tail);
}

/// The sources that moved are exactly those whose delta is a change.
pub proof fn law_moved_sources_are_the_changed(deltas: Seq<Movement>, source: Seq<char>)
    ensures
        moved(deltas).contains(source) <==> exists|i: int|
            0 <= i < deltas.len() && (#[trigger] deltas[i]).changed && deltas[i].source == source,
    decreases deltas.len(),
{
    if deltas.len() > 0 {
        let front = deltas.drop_last();
        law_moved_sources_are_the_changed(front, source);
        let rest = moved(front);
        let now = moved(deltas);
        if rest.contains(source) {
            let k = choose|k: int| 0 <= k < rest.len() && rest[k] == source;
            assert(now[k] == source);
            let i = choose|i: int|
                0 <= i < front.len() && (#[trigger] front[i]).changed && front[i].source == source;
            assert(deltas[i] == front[i]);
        }
        if now.contains(source) {
            let k = choose|k: int| 0 <= k < now.len() && now[k] == source;
            if k < rest.len() {
                assert(rest[k] == source);
            } else {
                assert(deltas[deltas.len() - 1].changed);
            }
        }
        if exists|i: int|
            0 <= i < deltas.len() && (#[trigger] deltas[i]).changed && deltas[i].source == source {
            let i = choose|i: int|
                0 <= i < deltas.len() && (#[trigger] deltas[i]).changed && deltas[i].source
                    == source;
            if i < front.len() {
                assert(front[i] == deltas[i]);
            } else {
                assert(now[now.len() - 1] == source);
            }
        }
    }
}

/// The delta found for a source is the first that bears its name.
pub proof fn law_delta_is_found_by_source(deltas: Seq<Movement>, source: Seq<char>)
    ensures
        first_delta(deltas, source) is None ==> forall|i: int|
            0 <= i < deltas.len() ==> (#[trigger] deltas[i]).source != source,
        first_delta(deltas, source) matches Some(d) ==> d.source == source && exists|i: int|
            0 <= i < deltas.len() && #[trigger] deltas[i] == d && forall|j: int|
                0 <= j < i ==> (#[trigger] deltas[j]).source != source,
    decreases deltas.len(),
{
    if deltas.len() > 0 {
        let rest = deltas.drop_first();
        if deltas[0].source != source {
            law_delta_is_found_by_source(rest, source);
            if let Some(d) = first_delta(rest, source) {
                let i = choose|i: int|
                    0 <= i < rest.len() && #[trigger] rest[i] == d && forall|j: int|
                        0 <= j < i ==> (#[trigger] rest[j]).source != source;
                assert(deltas[i + 1] == d);
                assert forall|j: int| 0 <= j < i + 1 implies (#[trigger] deltas[j]).source
                    != source by {
                    if j > 0 {
                        assert(rest[j - 1] == deltas[j]);
                    }
                }
            } else {
                assert forall|j: int| 0 <= j < deltas.len() implies (#[trigger] deltas[j]).source
                    != source by {
                    if j > 0 {
                        assert(rest[j - 1] == deltas[j]);
                    }
                }
            }
        }
    }
}

/// The note on a new source has each of its counts, in groups of three digits.
pub proof fn law_added_note_has_the_counts(id: Seq<char>, counts: Seq<(Seq<char>, usize)>, i: int)
    requires
        0 <= i < counts.len(),
    ensures
        text::holds(added_note(id, counts), text::grouped(counts[i].1 as nat) + " "@ + counts[i].0),
{
    let lines = count_lines(counts);
    assert(lines[i] == text::grouped(counts[i].1 as nat) + " "@ + counts[i].0);
    lemma_joined_part(lines, ", "@, i);
    let body = text::join(lines, ", "@);
    let head = id + " added to the bundle"@ + "; "@;
    let j = choose|j: int| text::stands_at(body, lines[i], j);
    let part = lines[i];
    assert(body =~= body.take(j) + body.subrange(j, j + part.len()) + body.skip(j + part.len()));
    text::lemma_holds_within(head + body.take(j), part, body.skip(j + part.len()));
    assert(added_note(id, counts) =~= head + body.take(j) + part + body.skip(j + part.len()));
}

proof fn lemma_joined_part(parts: Seq<Seq<char>>, sep: Seq<char>, i: int)
    requires
        0 <= i < parts.len(),
    ensures
        text::holds(text::join(parts, sep), parts[i]),
    decreases parts.len(),
{
    if parts.len() == 1 {
        text::lemma_holds_last(Seq::empty(), parts[0]);
        assert(Seq::<char>::empty() + parts[0] =~= parts[0]);
    } else {
        let front = parts.drop_last();
        let before = text::join(front, sep);
        let last = parts[parts.len() - 1];
        assert(text::join(parts, sep) == before + sep + last);
        if i < front.len() {
            lemma_joined_part(front, sep, i);
            assert(front[i] == parts[i]);
            text::lemma_begins_self(before);
            text::lemma_begins_more(before, sep, before);
            text::lemma_begins_more(before + sep, last, before);
            text::lemma_holds_begun(before + sep + last, before, parts[i]);
        } else {
            text::lemma_holds_last(before + sep, last);
        }
    }
}

} // verus!
