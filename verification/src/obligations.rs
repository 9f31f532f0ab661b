//! Which rules apply to *you*, and what they oblige you to do.
//!
//! A rule's applicability comes from four places in the published data, and no
//! single one is complete:
//!
//! | dimension | source | fallback |
//! |---|---|---|
//! | certification type | the `data.<type>` path (`all` / `20x` / `rev5`) | none needed — always present |
//! | affected party | the rule's own `affects` | subset applicability |
//! | class | `varies_by_class` keys | subset `classes`, else unconstrained |
//! | path | subset `paths` | unconstrained |
//!
//! The subset fallback matters because 19 of 246 rules live in subsets
//! (`CSF`, `CSX`) that no family declares in `info.subsets`. Those are exactly
//! the type-specific ones, so the `data.<type>` path carries their scope.

use vstd::prelude::*;

use crate::json;
use crate::json::{Doc, Json};
use crate::outside;
use crate::table;
use crate::table::Table;
use crate::text;

verus! {

#[derive(Debug, Clone, PartialEq, Eq)]
pub struct Profile {
    /// `Providers`, `Agencies`, `Assessors`, `Advisors`, or `FedRAMP`.
    pub role: String,
    /// `A`–`D`. `None` means "any class".
    pub class: Option<String>,
    /// `20x` or `Rev5`. `None` means "any type".
    pub cert_type: Option<String>,
    /// `Program` or `Agency`. `None` means "any path".
    pub path: Option<String>,
}

/// Whom a profile describes.
pub struct Party {
    pub role: Seq<char>,
    pub class: Option<Seq<char>>,
    pub cert_type: Option<Seq<char>>,
    pub path: Option<Seq<char>>,
}

impl View for Profile {
    type V = Party;

    open spec fn view(&self) -> Party {
        Party {
            role: self.role@,
            class: text::opt_text(self.class),
            cert_type: text::opt_text(self.cert_type),
            path: text::opt_text(self.path),
        }
    }
}

impl Default for Profile {
    fn default() -> (p: Profile)
        ensures
            p@ == (Party { role: "Providers"@, class: None, cert_type: None, path: None }),
    {
        Profile { role: "Providers".to_owned(), class: None, cert_type: None, path: None }
    }
}

pub open spec fn label_part(name: Seq<char>, value: Option<Seq<char>>) -> Seq<Seq<char>> {
    match value {
        Some(value) => seq![name + " "@ + value],
        None => Seq::empty(),
    }
}

impl Party {
    pub open spec fn label_text(self) -> Seq<char> {
        text::join(
            seq![self.role] + label_part("class"@, self.class) + label_part("type"@, self.cert_type)
                + label_part("path"@, self.path),
            ", "@,
        )
    }
}

fn push_part(parts: &mut Vec<String>, name: &str, value: &Option<String>)
    ensures
        text::texts(final(parts)@) == text::texts(old(parts)@) + label_part(
            name@,
            text::opt_text(*value),
        ),
{
    match value {
        Some(value) => {
            let mut part = name.to_owned();
            part.push_str(" ");
            part.push_str(value.as_str());
            assert(text::texts(parts@.push(part)) =~= text::texts(parts@) + seq![part@]);
            parts.push(part);
        },
        None => {
            assert(text::texts(parts@) + Seq::<Seq<char>>::empty() =~= text::texts(parts@));
        },
    }
}

pub fn copy_option(s: &Option<String>) -> (copy: Option<String>)
    ensures
        copy == *s,
{
    match s {
        Some(s) => Some(s.clone()),
        None => None,
    }
}

impl Profile {
    pub fn label(&self) -> (line: String)
        ensures
            line@ == self@.label_text(),
    {
        let mut parts: Vec<String> = Vec::new();
        parts.push(self.role.clone());
        assert(text::texts(parts@) =~= seq![self.role@]);
        push_part(&mut parts, "class", &self.class);
        push_part(&mut parts, "type", &self.cert_type);
        push_part(&mut parts, "path", &self.path);
        text::join_texts(&parts, ", ")
    }

    pub fn duplicate(&self) -> (copy: Profile)
        ensures
            copy@ == self@,
    {
        Profile {
            role: self.role.clone(),
            class: copy_option(&self.class),
            cert_type: copy_option(&self.cert_type),
            path: copy_option(&self.path),
        }
    }
}

/// One rule as it applies to a specific profile, with the class-specific
/// variant already resolved.
#[derive(Debug, Clone, PartialEq, Eq)]
pub struct Obligation {
    pub id: String,
    pub family: String,
    pub subset: String,
    pub cert_type: String,
    pub force: String,
    pub statement: String,
    pub name: Option<String>,
    /// Set when the text came from a `varies_by_class` branch.
    pub class: Option<String>,
    pub timeframe: Option<String>,
    /// The machine-readable artifact this rule binds, if any.
    pub schema: Option<String>,
}

/// What an obligation says.
pub struct Duty {
    pub id: Seq<char>,
    pub family: Seq<char>,
    pub subset: Seq<char>,
    pub cert_type: Seq<char>,
    pub force: Seq<char>,
    pub statement: Seq<char>,
    pub name: Option<Seq<char>>,
    pub class: Option<Seq<char>>,
    pub timeframe: Option<Seq<char>>,
    pub schema: Option<Seq<char>>,
}

impl View for Obligation {
    type V = Duty;

    open spec fn view(&self) -> Duty {
        Duty {
            id: self.id@,
            family: self.family@,
            subset: self.subset@,
            cert_type: self.cert_type@,
            force: self.force@,
            statement: self.statement@,
            name: text::opt_text(self.name),
            class: text::opt_text(self.class),
            timeframe: text::opt_text(self.timeframe),
            schema: text::opt_text(self.schema),
        }
    }
}

pub open spec fn duties(obligations: Seq<Obligation>) -> Seq<Duty> {
    obligations.map_values(|o: Obligation| o@)
}

/// `MUST` and `MUST NOT` are binding; the rest are not.
pub open spec fn binding_force(force: Seq<char>) -> bool {
    force == "MUST"@ || force == "MUST NOT"@
}

fn is_binding_force(force: &str) -> (yes: bool)
    ensures
        yes == binding_force(force@),
{
    text::same_text(force, "MUST") || text::same_text(force, "MUST NOT")
}

impl Obligation {
    /// `MUST` and `MUST NOT` are binding; the rest are not.
    pub fn is_binding(&self) -> (yes: bool)
        ensures
            yes == binding_force(self@.force),
    {
        is_binding_force(self.force.as_str())
    }

    pub fn duplicate(&self) -> (copy: Obligation)
        ensures
            copy@ == self@,
    {
        Obligation {
            id: self.id.clone(),
            family: self.family.clone(),
            subset: self.subset.clone(),
            cert_type: self.cert_type.clone(),
            force: self.force.clone(),
            statement: self.statement.clone(),
            name: copy_option(&self.name),
            class: copy_option(&self.class),
            timeframe: copy_option(&self.timeframe),
            schema: copy_option(&self.schema),
        }
    }
}

// Who is meant.

/// Whether a text among `list` reads like `wanted`, up to ASCII case.
pub open spec fn lists(list: Seq<Json>, wanted: Seq<char>) -> bool {
    exists|i: int| 0 <= i < list.len() && reads_like(#[trigger] list[i], wanted)
}

pub open spec fn reads_like(v: Json, wanted: Seq<char>) -> bool {
    match v {
        Json::Text(s) => text::alike(s, wanted),
        _ => false,
    }
}

pub open spec fn list_at(v: Option<Json>, key: Seq<char>) -> Option<Seq<Json>> {
    match v {
        Some(v) => v.array_at(key),
        None => None,
    }
}

/// `all` applies to every certification type; otherwise it must match.
pub open spec fn type_admits(cert_type: Seq<char>, wanted: Option<Seq<char>>) -> bool {
    match wanted {
        Some(wanted) => cert_type == "all"@ || text::alike(cert_type, wanted),
        None => true,
    }
}

/// A subset constrains only what it lists, and only who asks.
pub open spec fn admits(
    applicability: Option<Json>,
    key: Seq<char>,
    wanted: Option<Seq<char>>,
) -> bool {
    match (wanted, list_at(applicability, key)) {
        (Some(wanted), Some(list)) => lists(list, wanted),
        _ => true,
    }
}

/// The rule's own `affects` wins over the subset's.
pub open spec fn affects(leaf: Json, applicability: Option<Json>, role: Seq<char>) -> bool {
    let list = if leaf.get("affects"@) is Some {
        leaf.array_at("affects"@)
    } else {
        list_at(applicability, "affects"@)
    };
    match list {
        Some(list) => lists(list, role),
        None => true,
    }
}

fn listed(list: &Vec<Doc>, wanted: &str) -> (yes: bool)
    ensures
        yes == lists(json::jsons(list@), wanted@),
{
    let ghost all = json::jsons(list@);
    let mut i: usize = 0;
    while i < list.len()
        invariant
            i <= list@.len(),
            all == json::jsons(list@),
            forall|j: int| 0 <= j < i ==> !reads_like(#[trigger] all[j], wanted@),
        decreases list@.len() - i,
    {
        match list[i].as_str() {
            Some(s) => {
                if text::same_ignoring_case(s, wanted) {
                    assert(reads_like(all[i as int], wanted@));
                    return true;
                }
            },
            None => {},
        }
        assert(all[i as int] == list@[i as int]@);
        i += 1;
    }
    false
}

fn type_matches(cert_type: &str, wanted: &Option<String>) -> (yes: bool)
    ensures
        yes == type_admits(cert_type@, text::opt_text(*wanted)),
{
    match wanted {
        Some(wanted) => text::same_text(cert_type, "all") || text::same_ignoring_case(
            cert_type,
            wanted.as_str(),
        ),
        None => true,
    }
}

fn subset_matches(applicability: Option<&Doc>, key: &str, wanted: &Option<String>) -> (yes: bool)
    ensures
        yes == admits(json::opt_json(applicability), key@, text::opt_text(*wanted)),
{
    match (wanted, applicability) {
        (Some(wanted), Some(applicability)) => match json::array_member(applicability, key) {
            Some(list) => listed(list, wanted.as_str()),
            None => true,
        },
        _ => true,
    }
}

fn role_matches(leaf: &Doc, applicability: Option<&Doc>, role: &str) -> (yes: bool)
    ensures
        yes == affects(leaf@, json::opt_json(applicability), role@),
{
    let list = if leaf.get("affects").is_some() {
        json::array_member(leaf, "affects")
    } else {
        match applicability {
            Some(applicability) => json::array_member(applicability, "affects"),
            None => None,
        }
    };
    match list {
        Some(list) => listed(list, role),
        None => true,
    }
}

// What is owed.

pub open spec fn force_order(force: Option<Seq<char>>) -> int {
    match force {
        Some(force) => if force == "MUST"@ || force == "MUST NOT"@ {
            4
        } else if force == "SHOULD"@ || force == "SHOULD NOT"@ {
            3
        } else if force == "MAY"@ {
            2
        } else {
            1
        },
        None => 0,
    }
}

/// The strictest of a rule's variants; the last of several equally strict.
pub open spec fn strictest(variants: Seq<(Seq<char>, Json)>) -> Option<(Seq<char>, Json)>
    decreases variants.len(),
{
    if variants.len() == 0 {
        None
    } else {
        let last = variants.last();
        match strictest(variants.drop_last()) {
            Some(best) => if force_order(last.1.text_at("force"@)) >= force_order(
                best.1.text_at("force"@),
            ) {
                Some(last)
            } else {
                Some(best)
            },
            None => Some(last),
        }
    }
}

pub open spec fn timeframe_of(source: Json) -> Option<Seq<char>> {
    match (source.signed_at("timeframe_num"@), source.text_at("timeframe_type"@)) {
        (Some(n), Some(unit)) => Some(text::signed_decimal(n as int) + " "@ + unit),
        _ => None,
    }
}

/// Where in the ruleset a rule stands.
pub struct Place {
    pub id: Seq<char>,
    pub family: Seq<char>,
    pub subset: Seq<char>,
    pub cert_type: Seq<char>,
}

pub open spec fn duty(place: Place, leaf: Json, source: Json, class: Option<Seq<char>>) -> Duty {
    Duty {
        id: place.id,
        family: place.family,
        subset: place.subset,
        cert_type: place.cert_type,
        force: match source.text_at("force"@) {
            Some(force) => force,
            None => "UNSPECIFIED"@,
        },
        statement: match source.text_at("statement"@) {
            Some(statement) => statement,
            None => ""@,
        },
        name: leaf.text_at("name"@),
        class: match class {
            Some(class) => Some(text::ascii_upper(class)),
            None => None,
        },
        timeframe: timeframe_of(source),
        schema: match leaf.get("schema"@) {
            Some(schema) => schema.text_at("name"@),
            None => None,
        },
    }
}

/// A rule as it applies to a party, if it does. Per-class variants are
/// authoritative: a class absent there has no obligation under the rule,
/// whatever the subset declares. A party of no given class gets the strictest
/// variant, so nothing is missed.
pub open spec fn resolved(
    place: Place,
    leaf: Json,
    applicability: Option<Json>,
    party: Party,
) -> Option<Duty> {
    match leaf.object_at("varies_by_class"@) {
        Some(variants) => match party.class {
            Some(class) => match table::lookup(variants, text::ascii_lower(class)) {
                Some(variant) => Some(
                    duty(place, leaf, variant, Some(text::ascii_lower(class))),
                ),
                None => None,
            },
            None => match strictest(variants) {
                Some(v) => Some(duty(place, leaf, v.1, Some(v.0))),
                None => None,
            },
        },
        None => if admits(applicability, "classes"@, party.class) {
            Some(duty(place, leaf, leaf, None))
        } else {
            None
        },
    }
}

fn force_rank(force: Option<&str>) -> (rank: u8)
    ensures
        rank as int == force_order(
            match force {
                Some(f) => Some(f@),
                None => None,
            },
        ),
{
    match force {
        Some(force) => if text::same_text(force, "MUST") || text::same_text(force, "MUST NOT") {
            4
        } else if text::same_text(force, "SHOULD") || text::same_text(force, "SHOULD NOT") {
            3
        } else if text::same_text(force, "MAY") {
            2
        } else {
            1
        },
        None => 0,
    }
}

/// The position of the strictest variant.
fn strictest_variant(variants: &Table<Doc>) -> (at: Option<usize>)
    ensures
        match at {
            Some(i) => i < variants@.len() && strictest(variants.members()) == Some(
                (variants@[i as int].0, variants@[i as int].1@),
            ),
            None => strictest(variants.members()) is None,
        },
{
    broadcast use json::lemma_members;

    let ghost all = variants.members();
    let mut best: Option<usize> = None;
    let mut best_rank: u8 = 0;
    let mut i: usize = 0;
    while i < variants.len()
        invariant
            i <= variants@.len(),
            all == variants.members(),
            all == json::deep(variants@),
            match best {
                Some(b) => {
                    &&& b < i
                    &&& strictest(all.take(i as int)) == Some(
                        (variants@[b as int].0, variants@[b as int].1@),
                    )
                    &&& best_rank as int == force_order(
                        variants@[b as int].1@.text_at("force"@),
                    )
                },
                None => i == 0 && strictest(all.take(i as int)) is None,
            },
        decreases variants@.len() - i,
    {
        proof {
            assert(all.take(i + 1).drop_last() =~= all.take(i as int));
            assert(all.take(i + 1).last() == (variants@[i as int].0, variants@[i as int].1@));
        }
        let rank = force_rank(json::text_member(variants.value(i), "force"));
        if best.is_none() || rank >= best_rank {
            best = Some(i);
            best_rank = rank;
        }
        i += 1;
    }
    assert(all.take(all.len() as int) =~= all);
    best
}

pub fn owned(s: Option<&str>) -> (copy: Option<String>)
    ensures
        text::opt_text(copy) == (match s {
            Some(s) => Some(s@),
            None => None,
        }),
{
    match s {
        Some(s) => Some(s.to_owned()),
        None => None,
    }
}

fn fill(
    id: &str,
    family: &str,
    subset: &str,
    cert_type: &str,
    leaf: &Doc,
    source: &Doc,
    class: Option<&str>,
) -> (obligation: Obligation)
    ensures
        obligation@ == duty(
            Place { id: id@, family: family@, subset: subset@, cert_type: cert_type@ },
            leaf@,
            source@,
            match class {
                Some(c) => Some(c@),
                None => None,
            },
        ),
{
    let schema = match leaf.get("schema") {
        Some(schema) => owned(json::text_member(schema, "name")),
        None => None,
    };
    let timeframe = match (
        json::signed_member(source, "timeframe_num"),
        json::text_member(source, "timeframe_type"),
    ) {
        (Some(n), Some(unit)) => {
            let mut line = text::signed_text(n);
            line.push_str(" ");
            line.push_str(unit);
            Some(line)
        },
        _ => None,
    };
    Obligation {
        id: id.to_owned(),
        family: family.to_owned(),
        subset: subset.to_owned(),
        cert_type: cert_type.to_owned(),
        force: match json::text_member(source, "force") {
            Some(force) => force.to_owned(),
            None => "UNSPECIFIED".to_owned(),
        },
        statement: match json::text_member(source, "statement") {
            Some(statement) => statement.to_owned(),
            None => "".to_owned(),
        },
        name: owned(json::text_member(leaf, "name")),
        class: match class {
            Some(class) => Some(text::to_ascii_upper(class)),
            None => None,
        },
        timeframe,
        schema,
    }
}

pub open spec fn opt_duty(o: Option<Obligation>) -> Option<Duty> {
    match o {
        Some(o) => Some(o@),
        None => None,
    }
}

pub fn resolve(
    id: &str,
    family: &str,
    subset: &str,
    cert_type: &str,
    leaf: &Doc,
    applicability: Option<&Doc>,
    profile: &Profile,
) -> (found: Option<Obligation>)
    ensures
        opt_duty(found) == resolved(
            Place { id: id@, family: family@, subset: subset@, cert_type: cert_type@ },
            leaf@,
            json::opt_json(applicability),
            profile@,
        ),
{
    match json::object_member(leaf, "varies_by_class") {
        Some(variants) => match &profile.class {
            Some(class) => {
                let key = text::to_ascii_lower(class.as_str());
                match variants.member(key.as_str()) {
                    Some(variant) => Some(
                        fill(id, family, subset, cert_type, leaf, variant, Some(key.as_str())),
                    ),
                    None => None,
                }
            },
            None => match strictest_variant(variants) {
                Some(i) => Some(
                    fill(
                        id,
                        family,
                        subset,
                        cert_type,
                        leaf,
                        variants.value(i),
                        Some(variants.key(i)),
                    ),
                ),
                None => None,
            },
        },
        None => if subset_matches(applicability, "classes", &profile.class) {
            Some(fill(id, family, subset, cert_type, leaf, leaf, None))
        } else {
            None
        },
    }
}

// Gathering.

/// What a family says of a subset.
pub open spec fn subset_terms(body: Json, subset: Seq<char>) -> Option<Json> {
    json::at(body, seq!["info"@, "subsets"@, subset, "applicability"@])
}

pub open spec fn opt_seq(d: Option<Duty>) -> Seq<Duty> {
    match d {
        Some(d) => seq![d],
        None => Seq::empty(),
    }
}

/// The duties under one subset's rules.
pub open spec fn rule_duties(
    place: Place,
    entries: Seq<(Seq<char>, Json)>,
    applicability: Option<Json>,
    party: Party,
) -> Seq<Duty>
    decreases entries.len(),
{
    if entries.len() == 0 {
        Seq::empty()
    } else {
        let rest = rule_duties(place, entries.drop_last(), applicability, party);
        let (id, leaf) = entries.last();
        if affects(leaf, applicability, party.role) {
            rest + opt_seq(resolved(Place { id, ..place }, leaf, applicability, party))
        } else {
            rest
        }
    }
}

/// The duties under one certification type's subsets.
pub open spec fn subset_duties(
    place: Place,
    body: Json,
    groups: Seq<(Seq<char>, Json)>,
    party: Party,
) -> Seq<Duty>
    decreases groups.len(),
{
    if groups.len() == 0 {
        Seq::empty()
    } else {
        let rest = subset_duties(place, body, groups.drop_last(), party);
        let (subset, entries) = groups.last();
        let applicability = subset_terms(body, subset);
        if admits(applicability, "paths"@, party.path) {
            rest + rule_duties(
                Place { subset, ..place },
                json::members_of(Some(entries)),
                applicability,
                party,
            )
        } else {
            rest
        }
    }
}

/// The duties under one family's certification types.
pub open spec fn type_duties(
    place: Place,
    body: Json,
    data: Seq<(Seq<char>, Json)>,
    party: Party,
) -> Seq<Duty>
    decreases data.len(),
{
    if data.len() == 0 {
        Seq::empty()
    } else {
        let rest = type_duties(place, body, data.drop_last(), party);
        let (cert_type, groups) = data.last();
        if type_admits(cert_type, party.cert_type) {
            rest + subset_duties(
                Place { cert_type, ..place },
                body,
                json::members_of(Some(groups)),
                party,
            )
        } else {
            rest
        }
    }
}

pub open spec fn nowhere() -> Place {
    Place { id: ""@, family: ""@, subset: ""@, cert_type: ""@ }
}

/// The duties under all families.
pub open spec fn family_duties(families: Seq<(Seq<char>, Json)>, party: Party) -> Seq<Duty>
    decreases families.len(),
{
    if families.len() == 0 {
        Seq::empty()
    } else {
        let (family, body) = families.last();
        family_duties(families.drop_last(), party) + type_duties(
            Place { family, ..nowhere() },
            body,
            json::members_of(body.get("data"@)),
            party,
        )
    }
}

fn gather_rules(
    family: &str,
    subset: &str,
    cert_type: &str,
    entries: &Table<Doc>,
    applicability: Option<&Doc>,
    profile: &Profile,
    out: &mut Vec<Obligation>,
)
    ensures
        duties(final(out)@) == duties(old(out)@) + rule_duties(
            Place { id: ""@, family: family@, subset: subset@, cert_type: cert_type@ },
            entries.members(),
            json::opt_json(applicability),
            profile@,
        ),
{
    broadcast use json::lemma_members;

    let ghost start = duties(out@);
    let ghost all = entries.members();
    let ghost terms = json::opt_json(applicability);
    let ghost place = Place {
        id: ""@,
        family: family@,
        subset: subset@,
        cert_type: cert_type@,
    };
    let mut i: usize = 0;
    assert(start + rule_duties(place, all.take(0), terms, profile@) =~= start);
    while i < entries.len()
        invariant
            i <= entries@.len(),
            all == entries.members(),
            all == json::deep(entries@),
            terms == json::opt_json(applicability),
            place == (Place {
                id: ""@,
                family: family@,
                subset: subset@,
                cert_type: cert_type@,
            }),
            duties(out@) == start + rule_duties(place, all.take(i as int), terms, profile@),
        decreases entries@.len() - i,
    {
        let id = entries.key(i);
        let leaf = entries.value(i);
        let ghost done = rule_duties(place, all.take(i as int), terms, profile@);
        proof {
            assert(all.take(i + 1).drop_last() =~= all.take(i as int));
            assert(all.take(i + 1).last() == (id@, leaf@));
        }
        if role_matches(leaf, applicability, profile.role.as_str()) {
            match resolve(id, family, subset, cert_type, leaf, applicability, profile) {
                Some(obligation) => {
                    proof {
                        assert(duties(out@.push(obligation)) =~= duties(out@).push(obligation@));
                        assert((start + done).push(obligation@) =~= start + (done
                            + seq![obligation@]));
                    }
                    out.push(obligation);
                },
                None => {
                    assert(start + (done + Seq::<Duty>::empty()) =~= start + done);
                },
            }
        }
        i += 1;
    }
    assert(all.take(all.len() as int) =~= all);
}

fn gather_subsets(
    family: &str,
    cert_type: &str,
    body: &Doc,
    groups: &Table<Doc>,
    profile: &Profile,
    out: &mut Vec<Obligation>,
)
    ensures
        duties(final(out)@) == duties(old(out)@) + subset_duties(
            Place { family: family@, cert_type: cert_type@, ..nowhere() },
            body@,
            groups.members(),
            profile@,
        ),
{
    broadcast use json::lemma_members;

    let ghost start = duties(out@);
    let ghost all = groups.members();
    let ghost place = Place { family: family@, cert_type: cert_type@, ..nowhere() };
    let mut i: usize = 0;
    assert(start + subset_duties(place, body@, all.take(0), profile@) =~= start);
    while i < groups.len()
        invariant
            i <= groups@.len(),
            all == groups.members(),
            all == json::deep(groups@),
            place == (Place { family: family@, cert_type: cert_type@, ..nowhere() }),
            duties(out@) == start + subset_duties(place, body@, all.take(i as int), profile@),
        decreases groups@.len() - i,
    {
        let subset = groups.key(i);
        let entries = groups.value(i);
        let ghost done = subset_duties(place, body@, all.take(i as int), profile@);
        let path = ["info", "subsets", subset, "applicability"];
        assert(json::strs(path@) =~= seq!["info"@, "subsets"@, subset@, "applicability"@]);
        let applicability = json::value_at(body, &path);
        proof {
            assert(all.take(i + 1).drop_last() =~= all.take(i as int));
            assert(all.take(i + 1).last() == (subset@, entries@));
        }
        if subset_matches(applicability, "paths", &profile.path) {
            let ghost more = rule_duties(
                Place { subset: subset@, ..place },
                json::members_of(Some(entries@)),
                json::opt_json(applicability),
                profile@,
            );
            assert(start + (done + more) =~= start + done + more);
            match json::members_in(Some(entries)) {
                Some(entries) => {
                    gather_rules(family, subset, cert_type, entries, applicability, profile, out);
                },
                None => {
                    assert(start + done + more =~= start + done);
                },
            }
        }
        i += 1;
    }
    assert(all.take(all.len() as int) =~= all);
}

fn gather_types(
    family: &str,
    body: &Doc,
    data: &Table<Doc>,
    profile: &Profile,
    out: &mut Vec<Obligation>,
)
    ensures
        duties(final(out)@) == duties(old(out)@) + type_duties(
            Place { family: family@, ..nowhere() },
            body@,
            data.members(),
            profile@,
        ),
{
    broadcast use json::lemma_members;

    let ghost start = duties(out@);
    let ghost all = data.members();
    let ghost place = Place { family: family@, ..nowhere() };
    let mut i: usize = 0;
    assert(start + type_duties(place, body@, all.take(0), profile@) =~= start);
    while i < data.len()
        invariant
            i <= data@.len(),
            all == data.members(),
            all == json::deep(data@),
            place == (Place { family: family@, ..nowhere() }),
            duties(out@) == start + type_duties(place, body@, all.take(i as int), profile@),
        decreases data@.len() - i,
    {
        let cert_type = data.key(i);
        let groups = data.value(i);
        let ghost done = type_duties(place, body@, all.take(i as int), profile@);
        proof {
            assert(all.take(i + 1).drop_last() =~= all.take(i as int));
            assert(all.take(i + 1).last() == (cert_type@, groups@));
        }
        if type_matches(cert_type, &profile.cert_type) {
            let ghost more = subset_duties(
                Place { cert_type: cert_type@, ..place },
                body@,
                json::members_of(Some(groups@)),
                profile@,
            );
            assert(start + (done + more) =~= start + done + more);
            match json::members_in(Some(groups)) {
                Some(groups) => {
                    gather_subsets(family, cert_type, body, groups, profile, out);
                },
                None => {
                    assert(start + done + more =~= start + done);
                },
            }
        }
        i += 1;
    }
    assert(all.take(all.len() as int) =~= all);
}

fn gather(families: &Table<Doc>, profile: &Profile, out: &mut Vec<Obligation>)
    ensures
        duties(final(out)@) == duties(old(out)@) + family_duties(families.members(), profile@),
{
    broadcast use json::lemma_members;

    let ghost start = duties(out@);
    let ghost all = families.members();
    let mut i: usize = 0;
    assert(start + family_duties(all.take(0), profile@) =~= start);
    while i < families.len()
        invariant
            i <= families@.len(),
            all == families.members(),
            all == json::deep(families@),
            duties(out@) == start + family_duties(all.take(i as int), profile@),
        decreases families@.len() - i,
    {
        let family = families.key(i);
        let body = families.value(i);
        let ghost done = family_duties(all.take(i as int), profile@);
        let ghost more = type_duties(
            Place { family: family@, ..nowhere() },
            body@,
            json::members_of(body@.get("data"@)),
            profile@,
        );
        proof {
            assert(all.take(i + 1).drop_last() =~= all.take(i as int));
            assert(all.take(i + 1).last() == (family@, body@));
            assert(start + (done + more) =~= start + done + more);
        }
        match json::members_in(body.get("data")) {
            Some(data) => {
                gather_types(family, body, data, profile, out);
            },
            None => {
                assert(start + done + more =~= start + done);
            },
        }
        i += 1;
    }
    assert(all.take(all.len() as int) =~= all);
}

// Sorting.

/// The list with `d` behind every duty whose id is not larger.
pub open spec fn placed(list: Seq<Duty>, d: Duty) -> Seq<Duty>
    decreases list.len(),
{
    if list.len() == 0 || !text::text_lt(d.id, list.last().id) {
        list.push(d)
    } else {
        placed(list.drop_last(), d).push(list.last())
    }
}

/// The list by id; duties of one id keep their order.
pub open spec fn by_id(list: Seq<Duty>) -> Seq<Duty>
    decreases list.len(),
{
    if list.len() == 0 {
        Seq::empty()
    } else {
        placed(by_id(list.drop_last()), list.last())
    }
}

proof fn lemma_placed_at(list: Seq<Duty>, d: Duty, i: int)
    requires
        0 <= i <= list.len(),
        i > 0 ==> !text::text_lt(d.id, list[i - 1].id),
        forall|j: int| i <= j < list.len() ==> text::text_lt(d.id, (#[trigger] list[j]).id),
    ensures
        placed(list, d) == list.insert(i, d),
    decreases list.len(),
{
    if i < list.len() {
        assert(text::text_lt(d.id, list.last().id));
        lemma_placed_at(list.drop_last(), d, i);
        assert(list.drop_last().insert(i, d).push(list.last()) =~= list.insert(i, d));
    } else {
        assert(list.push(d) =~= list.insert(i, d));
    }
}

fn place_by_id(list: &mut Vec<Obligation>, obligation: Obligation)
    ensures
        duties(final(list)@) == placed(duties(old(list)@), obligation@),
{
    let ghost before = duties(list@);
    let mut i: usize = list.len();
    while i > 0 && text::text_before(obligation.id.as_str(), list[i - 1].id.as_str())
        invariant
            i <= list@.len(),
            before == duties(list@),
            forall|j: int|
                i <= j < before.len() ==> text::text_lt(
                    obligation@.id,
                    (#[trigger] before[j]).id,
                ),
        decreases i,
    {
        i -= 1;
    }
    proof {
        lemma_placed_at(before, obligation@, i as int);
        assert(duties(list@.insert(i as int, obligation)) =~= before.insert(
            i as int,
            obligation@,
        ));
    }
    list.insert(i, obligation);
}

fn sort_by_id(list: Vec<Obligation>) -> (sorted: Vec<Obligation>)
    ensures
        duties(sorted@) == by_id(duties(list@)),
{
    let mut sorted: Vec<Obligation> = Vec::new();
    let ghost all = duties(list@);
    let mut i: usize = 0;
    assert(duties(sorted@) =~= by_id(all.take(0)));
    while i < list.len()
        invariant
            i <= list@.len(),
            all == duties(list@),
            duties(sorted@) == by_id(all.take(i as int)),
        decreases list@.len() - i,
    {
        proof {
            assert(all.take(i + 1).drop_last() =~= all.take(i as int));
            assert(all.take(i + 1).last() == list@[i as int]@);
        }
        place_by_id(&mut sorted, list[i].duplicate());
        i += 1;
    }
    assert(all.take(all.len() as int) =~= all);
    sorted
}

/// Every duty that applies to a party, by rule id.
pub open spec fn selected(rules: Json, party: Party) -> Seq<Duty> {
    by_id(family_duties(json::members_of(rules.get("FRR"@)), party))
}

/// Every obligation that applies to `profile`, sorted by rule id.
pub fn select(rules: &Doc, profile: &Profile) -> (out: Vec<Obligation>)
    ensures
        duties(out@) == selected(rules@, profile@),
{
    let mut out: Vec<Obligation> = Vec::new();
    assert(duties(out@) =~= Seq::<Duty>::empty());
    let ghost found = family_duties(json::members_of(rules@.get("FRR"@)), profile@);
    match json::members_in(rules.get("FRR")) {
        Some(families) => {
            gather(families, profile, &mut out);
        },
        None => {},
    }
    assert(duties(out@) =~= found);
    sort_by_id(out)
}

// Change between two rulesets.

#[derive(Debug, Clone)]
pub struct ObligationChange {
    pub id: String,
    pub field: String,
    pub from: String,
    pub to: String,
}

/// What changed for one profile between two versions of the ruleset.
#[derive(Debug, Clone)]
pub struct ObligationDelta {
    pub profile: String,
    pub added: Vec<Obligation>,
    pub removed: Vec<Obligation>,
    pub changed: Vec<ObligationChange>,
}

/// What a change of one duty says.
pub struct Shift {
    pub id: Seq<char>,
    pub field: Seq<char>,
    pub from: Seq<char>,
    pub to: Seq<char>,
}

/// What changed for a party.
pub struct Impact {
    pub profile: Seq<char>,
    pub added: Seq<Duty>,
    pub removed: Seq<Duty>,
    pub changed: Seq<Shift>,
}

impl View for ObligationChange {
    type V = Shift;

    open spec fn view(&self) -> Shift {
        Shift { id: self.id@, field: self.field@, from: self.from@, to: self.to@ }
    }
}

pub open spec fn shifts(changes: Seq<ObligationChange>) -> Seq<Shift> {
    changes.map_values(|c: ObligationChange| c@)
}

impl View for ObligationDelta {
    type V = Impact;

    open spec fn view(&self) -> Impact {
        Impact {
            profile: self.profile@,
            added: duties(self.added@),
            removed: duties(self.removed@),
            changed: shifts(self.changed@),
        }
    }
}

/// Duties by rule id; of two with one id the later counts.
pub open spec fn indexed(list: Seq<Duty>) -> Seq<(Seq<char>, Duty)>
    decreases list.len(),
{
    if list.len() == 0 {
        Seq::empty()
    } else {
        table::put(indexed(list.drop_last()), list.last().id, list.last())
    }
}

/// The duties of `a` whose id `b` lacks, in order.
pub open spec fn beyond(a: Seq<(Seq<char>, Duty)>, b: Seq<(Seq<char>, Duty)>) -> Seq<Duty>
    decreases a.len(),
{
    if a.len() == 0 {
        Seq::empty()
    } else {
        let rest = beyond(a.drop_last(), b);
        if table::lookup(b, a.last().0) is None {
            rest.push(a.last().1)
        } else {
            rest
        }
    }
}

pub open spec fn field_shift(
    id: Seq<char>,
    field: Seq<char>,
    from: Seq<char>,
    to: Seq<char>,
) -> Seq<Shift> {
    if from == to {
        Seq::empty()
    } else {
        seq![Shift { id, field, from, to }]
    }
}

/// What of the duties in both maps reads differently.
pub open spec fn shifted(
    before: Seq<(Seq<char>, Duty)>,
    after: Seq<(Seq<char>, Duty)>,
) -> Seq<Shift>
    decreases before.len(),
{
    if before.len() == 0 {
        Seq::empty()
    } else {
        let rest = shifted(before.drop_last(), after);
        let (id, old_duty) = before.last();
        match table::lookup(after, id) {
            Some(new_duty) => rest + field_shift(id, "force"@, old_duty.force, new_duty.force)
                + field_shift(id, "statement"@, old_duty.statement, new_duty.statement),
            None => rest,
        }
    }
}

/// What changed for a party between two rulesets.
pub open spec fn impact(before: Json, after: Json, party: Party) -> Impact {
    let old_duties = indexed(selected(before, party));
    let new_duties = indexed(selected(after, party));
    Impact {
        profile: party.label_text(),
        added: beyond(new_duties, old_duties),
        removed: beyond(old_duties, new_duties),
        changed: shifted(old_duties, new_duties),
    }
}

pub open spec fn duty_map(m: Seq<(Seq<char>, Obligation)>) -> Seq<(Seq<char>, Duty)> {
    table::mapped(m, |o: Obligation| o@)
}

fn index(rules: &Doc, profile: &Profile) -> (map: Table<Obligation>)
    ensures
        duty_map(map@) == indexed(selected(rules@, profile@)),
{
    let list = select(rules, profile);
    let mut map: Table<Obligation> = Table::new();
    let ghost all = duties(list@);
    let mut i: usize = 0;
    assert(duty_map(map@) =~= indexed(all.take(0)));
    while i < list.len()
        invariant
            i <= list@.len(),
            all == duties(list@),
            duty_map(map@) == indexed(all.take(i as int)),
        decreases list@.len() - i,
    {
        let obligation = list[i].duplicate();
        proof {
            assert(all.take(i + 1).drop_last() =~= all.take(i as int));
            assert(all.take(i + 1).last() == list@[i as int]@);
            table::lemma_mapped_put(map@, obligation.id@, obligation, |o: Obligation| o@);
        }
        map.insert(list[i].id.clone(), obligation);
        i += 1;
    }
    assert(all.take(all.len() as int) =~= all);
    map
}

fn only_in(a: &Table<Obligation>, b: &Table<Obligation>) -> (list: Vec<Obligation>)
    ensures
        duties(list@) == beyond(duty_map(a@), duty_map(b@)),
{
    let mut list: Vec<Obligation> = Vec::new();
    let ghost all = duty_map(a@);
    let mut i: usize = 0;
    assert(duties(list@) =~= beyond(all.take(0), duty_map(b@)));
    while i < a.len()
        invariant
            i <= a@.len(),
            all == duty_map(a@),
            duties(list@) == beyond(all.take(i as int), duty_map(b@)),
        decreases a@.len() - i,
    {
        proof {
            assert(all.take(i + 1).drop_last() =~= all.take(i as int));
            assert(all.take(i + 1).last() == (a@[i as int].0, a@[i as int].1@));
            table::lemma_mapped_lookup(b@, a@[i as int].0, |o: Obligation| o@);
        }
        if !b.contains_key(a.key(i)) {
            let obligation = a.value(i).duplicate();
            assert(duties(list@.push(obligation)) =~= duties(list@).push(obligation@));
            list.push(obligation);
        }
        i += 1;
    }
    assert(all.take(all.len() as int) =~= all);
    list
}

fn push_shift(changes: &mut Vec<ObligationChange>, id: &str, field: &str, from: &str, to: &str)
    ensures
        shifts(final(changes)@) == shifts(old(changes)@) + field_shift(id@, field@, from@, to@),
{
    if !text::same_text(from, to) {
        let change = ObligationChange {
            id: id.to_owned(),
            field: field.to_owned(),
            from: from.to_owned(),
            to: to.to_owned(),
        };
        assert(shifts(changes@.push(change)) =~= shifts(changes@) + seq![change@]);
        changes.push(change);
    } else {
        assert(shifts(changes@) + Seq::<Shift>::empty() =~= shifts(changes@));
    }
}

fn changes_between(before: &Table<Obligation>, after: &Table<Obligation>) -> (changes: Vec<
    ObligationChange,
>)
    ensures
        shifts(changes@) == shifted(duty_map(before@), duty_map(after@)),
{
    let mut changes: Vec<ObligationChange> = Vec::new();
    let ghost all = duty_map(before@);
    let mut i: usize = 0;
    assert(shifts(changes@) =~= shifted(all.take(0), duty_map(after@)));
    while i < before.len()
        invariant
            i <= before@.len(),
            all == duty_map(before@),
            shifts(changes@) == shifted(all.take(i as int), duty_map(after@)),
        decreases before@.len() - i,
    {
        let id = before.key(i);
        let old_one = before.value(i);
        proof {
            assert(all.take(i + 1).drop_last() =~= all.take(i as int));
            assert(all.take(i + 1).last() == (id@, old_one@));
            table::lemma_mapped_lookup(after@, id@, |o: Obligation| o@);
        }
        match after.get(id) {
            Some(new_one) => {
                push_shift(
                    &mut changes,
                    id,
                    "force",
                    old_one.force.as_str(),
                    new_one.force.as_str(),
                );
                push_shift(
                    &mut changes,
                    id,
                    "statement",
                    old_one.statement.as_str(),
                    new_one.statement.as_str(),
                );
            },
            None => {},
        }
        i += 1;
    }
    assert(all.take(all.len() as int) =~= all);
    changes
}

pub fn delta(before: &Doc, after: &Doc, profile: &Profile) -> (d: ObligationDelta)
    ensures
        d@ == impact(before@, after@, profile@),
{
    let old_map = index(before, profile);
    let new_map = index(after, profile);
    ObligationDelta {
        profile: profile.label(),
        added: only_in(&new_map, &old_map),
        removed: only_in(&old_map, &new_map),
        changed: changes_between(&old_map, &new_map),
    }
}

/// Whether a change alters what is binding.
pub open spec fn shifts_binding(c: Shift) -> bool {
    c.field == "force"@ && binding_force(c.from) != binding_force(c.to)
}

pub open spec fn binding_only(changed: Seq<Shift>) -> Seq<Shift>
    decreases changed.len(),
{
    if changed.len() == 0 {
        Seq::empty()
    } else {
        let rest = binding_only(changed.drop_last());
        if shifts_binding(changed.last()) {
            rest.push(changed.last())
        } else {
            rest
        }
    }
}

pub open spec fn shifts_of(changes: Seq<&ObligationChange>) -> Seq<Shift> {
    changes.map_values(|c: &ObligationChange| c@)
}

impl Impact {
    pub open spec fn empty(self) -> bool {
        self.added.len() == 0 && self.removed.len() == 0 && self.changed.len() == 0
    }
}

impl ObligationDelta {
    pub fn is_empty(&self) -> (empty: bool)
        ensures
            empty == self@.empty(),
    {
        self.added.len() == 0 && self.removed.len() == 0 && self.changed.len() == 0
    }

    /// Changes that alter what is binding — the ones worth waking someone for.
    pub fn binding_shifts(&self) -> (found: Vec<&ObligationChange>)
        ensures
            shifts_of(found@) == binding_only(self@.changed),
    {
        let mut found: Vec<&ObligationChange> = Vec::new();
        let ghost all = self@.changed;
        let mut i: usize = 0;
        assert(shifts_of(found@) =~= binding_only(all.take(0)));
        while i < self.changed.len()
            invariant
                i <= self.changed@.len(),
                all == shifts(self.changed@),
                shifts_of(found@) == binding_only(all.take(i as int)),
            decreases self.changed@.len() - i,
        {
            let change = &self.changed[i];
            proof {
                assert(all.take(i + 1).drop_last() =~= all.take(i as int));
                assert(all.take(i + 1).last() == change@);
            }
            if text::same_text(change.field.as_str(), "force") && is_binding_force(
                change.from.as_str(),
            ) != is_binding_force(change.to.as_str()) {
                assert(shifts_of(found@.push(change)) =~= shifts_of(found@).push(change@));
                found.push(change);
            }
            i += 1;
        }
        assert(all.take(all.len() as int) =~= all);
        found
    }
}

// Laws.

proof fn lemma_placed_sorted(list: Seq<Duty>, d: Duty)
    requires
        in_order(list),
    ensures
        in_order(placed(list, d)),
        placed(list, d).len() == list.len() + 1,
        list.len() > 0 ==> placed(list, d).last() == d || placed(list, d).last() == list.last(),
    decreases list.len(),
{
    if list.len() > 0 && text::text_lt(d.id, list.last().id) {
        let rest = list.drop_last();
        assert forall|i: int, j: int| 0 <= i < j < rest.len() implies !text::text_lt(
            (#[trigger] rest[j]).id,
            (#[trigger] rest[i]).id,
        ) by {
            assert(rest[i] == list[i] && rest[j] == list[j]);
        }
        lemma_placed_sorted(rest, d);
        let inner = placed(rest, d);
        let all = placed(list, d);
        assert forall|i: int, j: int| 0 <= i < j < all.len() implies !text::text_lt(
            (#[trigger] all[j]).id,
            (#[trigger] all[i]).id,
        ) by {
            if j < inner.len() {
                assert(all[i] == inner[i] && all[j] == inner[j]);
            } else {
                assert(all[i] == inner[i]);
                lemma_placed_members(rest, d, i);
                text::lemma_text_lt_irreflexive(d.id);
                if inner[i] == d {
                    if text::text_lt(list.last().id, d.id) {
                        text::lemma_text_lt_transitive(d.id, list.last().id, d.id);
                    }
                } else {
                    let k = choose|k: int| 0 <= k < rest.len() && #[trigger] rest[k] == inner[i];
                    assert(rest[k] == list[k]);
                    assert(!text::text_lt(list[list.len() - 1].id, list[k].id));
                }
            }
        }
    } else if list.len() > 0 {
        let all = list.push(d);
        assert forall|i: int, j: int| 0 <= i < j < all.len() implies !text::text_lt(
            (#[trigger] all[j]).id,
            (#[trigger] all[i]).id,
        ) by {
            if j < list.len() {
                assert(all[i] == list[i] && all[j] == list[j]);
            } else {
                assert(all[i] == list[i]);
                let last = list[list.len() - 1].id;
                if text::text_lt(d.id, list[i].id) {
                    if i < list.len() - 1 {
                        assert(!text::text_lt(last, list[i].id));
                        text::lemma_text_lt_total(last, list[i].id);
                        if list[i].id != last {
                            text::lemma_text_lt_transitive(d.id, list[i].id, last);
                        }
                    }
                }
            }
        }
    }
}

proof fn lemma_placed_members(list: Seq<Duty>, d: Duty, i: int)
    requires
        0 <= i < placed(list, d).len(),
    ensures
        placed(list, d)[i] == d || exists|k: int|
            0 <= k < list.len() && #[trigger] list[k] == placed(list, d)[i],
    decreases list.len(),
{
    if list.len() > 0 && text::text_lt(d.id, list.last().id) {
        let rest = list.drop_last();
        if i < placed(rest, d).len() {
            lemma_placed_members(rest, d, i);
            if placed(list, d)[i] != d {
                let k = choose|k: int| 0 <= k < rest.len() && #[trigger] rest[k] == placed(rest, d)[i];
                assert(list[k] == placed(list, d)[i]);
            }
        } else {
            assert(list[list.len() - 1] == placed(list, d)[i]);
        }
    } else if i < list.len() {
        assert(list[i] == placed(list, d)[i]);
    }
}

/// No duty stands before one of a smaller id.
pub open spec fn in_order(list: Seq<Duty>) -> bool {
    forall|i: int, j: int|
        0 <= i < j < list.len() ==> !text::text_lt((#[trigger] list[j]).id, (#[trigger] list[i]).id)
}

proof fn lemma_by_id_sorted(list: Seq<Duty>)
    ensures
        in_order(by_id(list)),
        by_id(list).to_multiset() == list.to_multiset(),
    decreases list.len(),
{
    if list.len() > 0 {
        lemma_by_id_sorted(list.drop_last());
        lemma_placed_sorted(by_id(list.drop_last()), list.last());
        lemma_placed_multiset(by_id(list.drop_last()), list.last());
        vstd::seq_lib::to_multiset_build(list.drop_last(), list.last());
        assert(list.drop_last().push(list.last()) =~= list);
    } else {
        assert(by_id(list) =~= list);
    }
}

proof fn lemma_placed_multiset(list: Seq<Duty>, d: Duty)
    ensures
        placed(list, d).to_multiset() == list.to_multiset().insert(d),
    decreases list.len(),
{
    broadcast use vstd::multiset::group_multiset_axioms;

    if list.len() > 0 && text::text_lt(d.id, list.last().id) {
        let rest = list.drop_last();
        lemma_placed_multiset(rest, d);
        vstd::seq_lib::to_multiset_build(placed(rest, d), list.last());
        vstd::seq_lib::to_multiset_build(rest, list.last());
        assert(rest.push(list.last()) =~= list);
        assert(rest.to_multiset().insert(d).insert(list.last()) =~= rest.to_multiset().insert(
            list.last(),
        ).insert(d));
    } else {
        vstd::seq_lib::to_multiset_build(list, d);
    }
}

/// A party's duties come in the order of their rule ids, and are those of the
/// families, none lost and none added.
pub proof fn law_selection_is_sorted(rules: Json, party: Party)
    ensures
        in_order(selected(rules, party)),
        selected(rules, party).to_multiset() == family_duties(
            json::members_of(rules.get("FRR"@)),
            party,
        ).to_multiset(),
{
    lemma_by_id_sorted(family_duties(json::members_of(rules.get("FRR"@)), party));
}

/// A class that a rule's variants leave out has no obligation under it,
/// whatever the subset declares.
pub proof fn law_absent_class_owes_nothing(
    place: Place,
    leaf: Json,
    applicability: Option<Json>,
    party: Party,
    variants: Seq<(Seq<char>, Json)>,
    class: Seq<char>,
)
    requires
        leaf.object_at("varies_by_class"@) == Some(variants),
        party.class == Some(class),
        table::lookup(variants, text::ascii_lower(class)) is None,
    ensures
        resolved(place, leaf, applicability, party) is None,
{
}

/// Where no class is given, no variant of a rule is stricter than the one
/// reported.
pub proof fn law_strictest_variant_is_reported(variants: Seq<(Seq<char>, Json)>, i: int)
    requires
        0 <= i < variants.len(),
    ensures
        strictest(variants) matches Some(best) && force_order(best.1.text_at("force"@))
            >= force_order(variants[i].1.text_at("force"@)) && variants.contains(best),
    decreases variants.len(),
{
    let rest = variants.drop_last();
    assert(variants[variants.len() - 1] == variants.last());
    if i < variants.len() - 1 {
        law_strictest_variant_is_reported(rest, i);
        let best = strictest(rest)->Some_0;
        let k = choose|k: int| 0 <= k < rest.len() && rest[k] == best;
        assert(variants[k] == best);
    } else if rest.len() > 0 {
        law_strictest_variant_is_reported(rest, 0);
        let best = strictest(rest)->Some_0;
        let k = choose|k: int| 0 <= k < rest.len() && rest[k] == best;
        assert(variants[k] == best);
    }
}

proof fn lemma_indexed_ordered(list: Seq<Duty>)
    ensures
        table::ordered(indexed(list)),
    decreases list.len(),
{
    if list.len() > 0 {
        lemma_indexed_ordered(list.drop_last());
        table::lemma_put_ordered(indexed(list.drop_last()), list.last().id, list.last());
    }
}

proof fn lemma_same_index(m: Seq<(Seq<char>, Duty)>, n: int)
    requires
        table::ordered(m),
        0 <= n <= m.len(),
    ensures
        beyond(m.take(n), m).len() == 0,
        shifted(m.take(n), m).len() == 0,
    decreases n,
{
    if n > 0 {
        lemma_same_index(m, n - 1);
        table::lemma_lookup_entry(m, n - 1);
        assert(m.take(n).drop_last() =~= m.take(n - 1));
    }
}

/// Two rulesets that give a party the same duties do not affect it.
pub proof fn law_same_duties_do_not_affect(before: Json, after: Json, party: Party)
    requires
        selected(before, party) == selected(after, party),
    ensures
        impact(before, after, party).empty(),
{
    let m = indexed(selected(before, party));
    lemma_indexed_ordered(selected(before, party));
    lemma_same_index(m, m.len() as int);
    assert(m.take(m.len() as int) =~= m);
}

// Two rulesets, either way round.

/// A change read the other way round.
pub open spec fn flipped(c: Shift) -> Shift {
    Shift { from: c.to, to: c.from, ..c }
}

pub open spec fn all_flipped(changes: Seq<Shift>) -> Seq<Shift> {
    changes.map_values(|c: Shift| flipped(c))
}

proof fn lemma_lookup_last(m: Seq<(Seq<char>, Duty)>, key: Seq<char>)
    requires
        table::ordered(m),
        m.len() > 0,
    ensures
        table::ordered(m.drop_last()),
        key != m.last().0 ==> table::lookup(m, key) == table::lookup(m.drop_last(), key),
        key == m.last().0 ==> table::lookup(m, key) == Some(m.last().1),
{
    let rest = m.drop_last();
    assert forall|i: int, j: int| 0 <= i < j < rest.len() implies text::text_lt(
        #[trigger] rest[i].0,
        #[trigger] rest[j].0,
    ) by {
        assert(m[i] == rest[i] && m[j] == rest[j]);
    }
    table::lemma_lookup_entry(m, m.len() - 1);
    let i = table::lemma_lookup_index(m, key);
    if key != m.last().0 {
        if i < m.len() {
            assert(rest[i] == m[i]);
            table::lemma_lookup_entry(rest, i);
        } else {
            assert forall|j: int| 0 <= j < rest.len() implies (#[trigger] rest[j]).0 != key by {
                assert(m[j] == rest[j]);
            }
            table::lemma_lookup_at(rest, key, rest.len() as int);
        }
    }
}

proof fn lemma_shifted_alike(
    a: Seq<(Seq<char>, Duty)>,
    b: Seq<(Seq<char>, Duty)>,
    c: Seq<(Seq<char>, Duty)>,
)
    requires
        forall|i: int|
            0 <= i < a.len() ==> table::lookup(b, (#[trigger] a[i]).0) == table::lookup(
                c,
                a[i].0,
            ),
    ensures
        shifted(a, b) == shifted(a, c),
    decreases a.len(),
{
    if a.len() > 0 {
        let rest = a.drop_last();
        assert forall|i: int| 0 <= i < rest.len() implies table::lookup(b, (#[trigger] rest[i]).0)
            == table::lookup(c, rest[i].0) by {
            assert(rest[i] == a[i]);
        }
        lemma_shifted_alike(rest, b, c);
        assert(a[a.len() - 1] == a.last());
    }
}

/// Entries below the last key are compared as though it were not there.
proof fn lemma_shifted_below(a: Seq<(Seq<char>, Duty)>, b: Seq<(Seq<char>, Duty)>)
    requires
        table::ordered(b),
        b.len() > 0,
        forall|i: int| 0 <= i < a.len() ==> (#[trigger] a[i]).0 != b.last().0,
    ensures
        shifted(a, b) == shifted(a, b.drop_last()),
{
    assert forall|i: int| 0 <= i < a.len() implies table::lookup(b, (#[trigger] a[i]).0)
        == table::lookup(b.drop_last(), a[i].0) by {
        lemma_lookup_last(b, a[i].0);
    }
    lemma_shifted_alike(a, b, b.drop_last());
}

/// The keys of a map whose last key is smaller than `key` are all other keys.
proof fn lemma_keys_below(m: Seq<(Seq<char>, Duty)>, key: Seq<char>)
    requires
        table::ordered(m),
        m.len() > 0,
        text::text_lt(m.last().0, key),
    ensures
        forall|i: int| 0 <= i < m.len() ==> text::text_lt((#[trigger] m[i]).0, key) && m[i].0
            != key,
{
    text::lemma_text_lt_irreflexive(key);
    assert forall|i: int| 0 <= i < m.len() implies text::text_lt((#[trigger] m[i]).0, key)
        && m[i].0 != key by {
        assert(m[m.len() - 1] == m.last());
        if i < m.len() - 1 {
            assert(text::text_lt(m[i].0, m[m.len() - 1].0));
            text::lemma_text_lt_transitive(m[i].0, m.last().0, key);
        }
    }
}

proof fn lemma_shifted_nowhere(a: Seq<(Seq<char>, Duty)>, b: Seq<(Seq<char>, Duty)>)
    requires
        b.len() == 0,
    ensures
        shifted(a, b).len() == 0,
    decreases a.len(),
{
    if a.len() > 0 {
        lemma_shifted_nowhere(a.drop_last(), b);
    }
}

proof fn lemma_exchanged(a: Seq<(Seq<char>, Duty)>, b: Seq<(Seq<char>, Duty)>)
    requires
        table::ordered(a),
        table::ordered(b),
    ensures
        shifted(b, a) == all_flipped(shifted(a, b)),
    decreases a.len() + b.len(),
{
    if a.len() == 0 {
        lemma_shifted_nowhere(b, a);
        assert(shifted(b, a) =~= all_flipped(shifted(a, b)));
    } else if b.len() == 0 {
        lemma_shifted_nowhere(a, b);
        assert(shifted(b, a) =~= all_flipped(shifted(a, b)));
    } else {
        let x = a.last().0;
        let y = b.last().0;
        lemma_lookup_last(a, y);
        lemma_lookup_last(b, x);
        text::lemma_text_lt_total(x, y);
        if x == y {
            let fewer = a.drop_last();
            let others = b.drop_last();
            assert forall|i: int| 0 <= i < fewer.len() implies (#[trigger] fewer[i]).0
                != y by {
                assert(text::text_lt(a[i].0, a[a.len() - 1].0));
                text::lemma_text_lt_irreflexive(x);
            }
            assert forall|i: int| 0 <= i < others.len() implies (#[trigger] others[i]).0
                != x by {
                assert(text::text_lt(b[i].0, b[b.len() - 1].0));
                text::lemma_text_lt_irreflexive(x);
            }
            lemma_shifted_below(fewer, b);
            lemma_shifted_below(others, a);
            lemma_exchanged(fewer, others);
            let was = a.last().1;
            let now = b.last().1;
            let rest = shifted(fewer, others);
            let forward = rest + field_shift(x, "force"@, was.force, now.force) + field_shift(
                x,
                "statement"@,
                was.statement,
                now.statement,
            );
            let backward = all_flipped(rest) + field_shift(x, "force"@, now.force, was.force)
                + field_shift(x, "statement"@, now.statement, was.statement);
            assert(shifted(a, b) == forward);
            assert(shifted(b, a) == backward);
            assert(backward =~= all_flipped(forward));
        } else if text::text_lt(y, x) {
            lemma_keys_below(b, x);
            lemma_lookup_missing(b, x);
            lemma_shifted_below(b, a);
            lemma_exchanged(a.drop_last(), b);
        } else {
            lemma_keys_below(a, y);
            lemma_lookup_missing(a, y);
            lemma_shifted_below(a, b);
            lemma_exchanged(a, b.drop_last());
        }
    }
}

proof fn lemma_lookup_missing(m: Seq<(Seq<char>, Duty)>, key: Seq<char>)
    requires
        forall|i: int| 0 <= i < m.len() ==> (#[trigger] m[i]).0 != key,
    ensures
        table::lookup(m, key) is None,
{
    table::lemma_lookup_at(m, key, m.len() as int);
}

/// Exchanging two rulesets exchanges what is added and what is removed, and
/// reads every change the other way round, in the same order.
pub proof fn law_exchange_reverses_the_impact(before: Json, after: Json, party: Party)
    ensures
        impact(after, before, party).added == impact(before, after, party).removed,
        impact(after, before, party).removed == impact(before, after, party).added,
        impact(after, before, party).changed == all_flipped(
            impact(before, after, party).changed,
        ),
{
    lemma_indexed_ordered(selected(before, party));
    lemma_indexed_ordered(selected(after, party));
    lemma_exchanged(indexed(selected(before, party)), indexed(selected(after, party)));
}

proof fn lemma_indexed_by_own_id(list: Seq<Duty>, i: int)
    requires
        0 <= i < indexed(list).len(),
    ensures
        indexed(list)[i].0 == indexed(list)[i].1.id,
    decreases list.len(),
{
    if list.len() > 0 {
        let rest = indexed(list.drop_last());
        let m = indexed(list);
        lemma_indexed_ordered(list.drop_last());
        lemma_indexed_ordered(list);
        table::lemma_lookup_entry(m, i);
        table::lemma_put_lookup(rest, list.last().id, list.last(), m[i].0);
        if m[i].0 != list.last().id {
            let k = table::lemma_lookup_index(rest, m[i].0);
            lemma_indexed_by_own_id(list.drop_last(), k);
        }
    }
}

/// The duties come in the order of their ids, no id twice.
pub open spec fn ascending(list: Seq<Duty>) -> bool {
    forall|i: int, j: int|
        0 <= i < j < list.len() ==> text::text_lt((#[trigger] list[i]).id, (#[trigger] list[j]).id)
}

/// The changes come in the order of their ids.
pub open spec fn not_descending(list: Seq<Shift>) -> bool {
    forall|i: int, j: int|
        0 <= i < j < list.len() ==> !text::text_lt(
            (#[trigger] list[j]).id,
            (#[trigger] list[i]).id,
        )
}

proof fn lemma_beyond(a: Seq<(Seq<char>, Duty)>, b: Seq<(Seq<char>, Duty)>)
    requires
        table::ordered(a),
        forall|i: int| 0 <= i < a.len() ==> (#[trigger] a[i]).0 == a[i].1.id,
    ensures
        ascending(beyond(a, b)),
        forall|k: int|
            0 <= k < beyond(a, b).len() ==> table::lookup(b, (#[trigger] beyond(a, b)[k]).id) is None
                && table::lookup(a, beyond(a, b)[k].id) is Some,
        forall|k: int, key: Seq<char>|
            0 <= k < beyond(a, b).len() && a.len() > 0 && text::text_lt(a.last().0, key)
                ==> #[trigger] text::text_lt(beyond(a, b)[k].id, key),
    decreases a.len(),
{
    if a.len() > 0 {
        let fewer = a.drop_last();
        let rest = beyond(fewer, b);
        let all = beyond(a, b);
        let last = a.last();
        lemma_lookup_last(a, last.0);
        assert(a[a.len() - 1] == last);
        assert forall|i: int| 0 <= i < fewer.len() implies (#[trigger] fewer[i]).0
            == fewer[i].1.id by {
            assert(a[i] == fewer[i]);
        }
        lemma_beyond(fewer, b);
        assert forall|k: int| 0 <= k < rest.len() implies text::text_lt(
            (#[trigger] rest[k]).id,
            last.0,
        ) by {
            let i = table::lemma_lookup_index(fewer, rest[k].id);
            assert(fewer[i] == a[i]);
            assert(text::text_lt(a[i].0, a[a.len() - 1].0));
        }
        assert forall|k: int| 0 <= k < all.len() implies table::lookup(
            b,
            (#[trigger] all[k]).id,
        ) is None && table::lookup(a, all[k].id) is Some by {
            lemma_lookup_last(a, all[k].id);
            if k < rest.len() {
                assert(all[k] == rest[k]);
            }
        }
        assert forall|i: int, j: int| 0 <= i < j < all.len() implies text::text_lt(
            (#[trigger] all[i]).id,
            (#[trigger] all[j]).id,
        ) by {
            assert(all[i] == rest[i]);
            if j < rest.len() {
                assert(all[j] == rest[j]);
            }
        }
        assert forall|k: int, key: Seq<char>|
            0 <= k < all.len() && text::text_lt(last.0, key) implies #[trigger] text::text_lt(
            all[k].id,
            key,
        ) by {
            if k < rest.len() {
                assert(all[k] == rest[k]);
                text::lemma_text_lt_transitive(rest[k].id, last.0, key);
            }
        }
    }
}

proof fn lemma_shifted_ids(a: Seq<(Seq<char>, Duty)>, b: Seq<(Seq<char>, Duty)>)
    requires
        table::ordered(a),
    ensures
        not_descending(shifted(a, b)),
        forall|k: int|
            0 <= k < shifted(a, b).len() ==> table::lookup(
                a,
                (#[trigger] shifted(a, b)[k]).id,
            ) is Some && table::lookup(b, shifted(a, b)[k].id) is Some,
    decreases a.len(),
{
    if a.len() > 0 {
        let fewer = a.drop_last();
        let rest = shifted(fewer, b);
        let all = shifted(a, b);
        let last = a.last().0;
        lemma_lookup_last(a, last);
        lemma_shifted_ids(fewer, b);
        assert forall|k: int| 0 <= k < rest.len() implies text::text_lt(
            (#[trigger] rest[k]).id,
            last,
        ) by {
            let i = table::lemma_lookup_index(fewer, rest[k].id);
            assert(fewer[i] == a[i]);
            assert(text::text_lt(a[i].0, a[a.len() - 1].0));
        }
        assert forall|k: int| 0 <= k < all.len() implies (#[trigger] all[k]) == rest[k] && k
            < rest.len() || all[k].id == last && table::lookup(b, last) is Some by {}
        assert forall|k: int| 0 <= k < all.len() implies table::lookup(
            a,
            (#[trigger] all[k]).id,
        ) is Some && table::lookup(b, all[k].id) is Some by {
            lemma_lookup_last(a, all[k].id);
        }
        assert forall|i: int, j: int| 0 <= i < j < all.len() implies !text::text_lt(
            (#[trigger] all[j]).id,
            (#[trigger] all[i]).id,
        ) by {
            text::lemma_text_lt_irreflexive(last);
            if j < rest.len() {
                assert(all[i] == rest[i] && all[j] == rest[j]);
            } else if i < rest.len() && text::text_lt(last, rest[i].id) {
                text::lemma_text_lt_transitive(last, rest[i].id, last);
            }
        }
    }
}

/// What is added, what is removed and what changed each come in the order of
/// the rule ids, and no id is in two of them.
pub proof fn law_impact_is_sorted(before: Json, after: Json, party: Party)
    ensures
        ({
            let found = impact(before, after, party);
            &&& ascending(found.added)
            &&& ascending(found.removed)
            &&& not_descending(found.changed)
            &&& forall|i: int, j: int|
                0 <= i < found.added.len() && 0 <= j < found.removed.len() ==> (
                #[trigger] found.added[i]).id != (#[trigger] found.removed[j]).id
            &&& forall|i: int, j: int|
                0 <= i < found.added.len() && 0 <= j < found.changed.len() ==> (
                #[trigger] found.added[i]).id != (#[trigger] found.changed[j]).id
            &&& forall|i: int, j: int|
                0 <= i < found.removed.len() && 0 <= j < found.changed.len() ==> (
                #[trigger] found.removed[i]).id != (#[trigger] found.changed[j]).id
        }),
{
    let old_list = selected(before, party);
    let new_list = selected(after, party);
    lemma_indexed_ordered(old_list);
    lemma_indexed_ordered(new_list);
    assert forall|i: int| 0 <= i < indexed(old_list).len() implies (#[trigger] indexed(
        old_list,
    )[i]).0 == indexed(old_list)[i].1.id by {
        lemma_indexed_by_own_id(old_list, i);
    }
    assert forall|i: int| 0 <= i < indexed(new_list).len() implies (#[trigger] indexed(
        new_list,
    )[i]).0 == indexed(new_list)[i].1.id by {
        lemma_indexed_by_own_id(new_list, i);
    }
    lemma_beyond(indexed(new_list), indexed(old_list));
    lemma_beyond(indexed(old_list), indexed(new_list));
    lemma_shifted_ids(indexed(old_list), indexed(new_list));
}

// Dimensions left open.

/// A party that leaves open whatever it does not share with another.
pub open spec fn opens(wide: Party, narrow: Party) -> bool {
    &&& wide.role == narrow.role
    &&& wide.class is None || wide.class == narrow.class
    &&& wide.cert_type is None || wide.cert_type == narrow.cert_type
    &&& wide.path is None || wide.path == narrow.path
}

/// One duty is the other's, under the same rule in the same place, and at least
/// as strict.
pub open spec fn no_laxer(a: Duty, b: Duty) -> bool {
    &&& a.id == b.id
    &&& a.family == b.family
    &&& a.subset == b.subset
    &&& a.cert_type == b.cert_type
    &&& force_order(Some(a.force)) >= force_order(Some(b.force))
}

pub open spec fn has_no_laxer(wide: Seq<Duty>, d: Duty) -> bool {
    exists|i: int| 0 <= i < wide.len() && no_laxer(#[trigger] wide[i], d)
}

/// Every duty of `narrow` is in `wide`, at least as strict.
pub open spec fn covers(wide: Seq<Duty>, narrow: Seq<Duty>) -> bool {
    forall|i: int| 0 <= i < narrow.len() ==> has_no_laxer(wide, #[trigger] narrow[i])
}

proof fn lemma_covers_parts(w1: Seq<Duty>, w2: Seq<Duty>, n1: Seq<Duty>, n2: Seq<Duty>)
    requires
        covers(w1, n1),
        covers(w2, n2),
    ensures
        covers(w1 + w2, n1 + n2),
{
    let wide = w1 + w2;
    let narrow = n1 + n2;
    assert forall|i: int| 0 <= i < narrow.len() implies has_no_laxer(wide, #[trigger] narrow[i]) by {
        if i < n1.len() {
            assert(narrow[i] == n1[i]);
            let k = choose|k: int| 0 <= k < w1.len() && no_laxer(#[trigger] w1[k], n1[i]);
            assert(wide[k] == w1[k]);
        } else {
            assert(narrow[i] == n2[i - n1.len()]);
            let k = choose|k: int|
                0 <= k < w2.len() && no_laxer(#[trigger] w2[k], n2[i - n1.len()]);
            assert(wide[w1.len() + k] == w2[k]);
        }
    }
}

proof fn lemma_resolved_open(
    place: Place,
    leaf: Json,
    applicability: Option<Json>,
    wide: Party,
    narrow: Party,
)
    requires
        opens(wide, narrow),
    ensures
        covers(
            opt_seq(resolved(place, leaf, applicability, wide)),
            opt_seq(resolved(place, leaf, applicability, narrow)),
        ),
{
    let w = opt_seq(resolved(place, leaf, applicability, wide));
    let n = opt_seq(resolved(place, leaf, applicability, narrow));
    reveal_strlit("UNSPECIFIED");
    reveal_strlit("MUST");
    reveal_strlit("MUST NOT");
    reveal_strlit("SHOULD");
    reveal_strlit("SHOULD NOT");
    reveal_strlit("MAY");
    assert("UNSPECIFIED"@.len() == 11 && "SHOULD NOT"@.len() == 10 && "MUST NOT"@.len() == 8);
    assert(force_order(Some("UNSPECIFIED"@)) == 1);
    assert forall|i: int| 0 <= i < n.len() implies has_no_laxer(w, #[trigger] n[i]) by {
        match leaf.object_at("varies_by_class"@) {
            Some(variants) => {
                if wide.class is None && narrow.class is Some {
                    let k = table::lemma_lookup_index(
                        variants,
                        text::ascii_lower(narrow.class->Some_0),
                    );
                    law_strictest_variant_is_reported(variants, k);
                }
            },
            None => {},
        }
        assert(no_laxer(w[0], n[0]));
    }
}

proof fn lemma_rules_open(
    place: Place,
    entries: Seq<(Seq<char>, Json)>,
    applicability: Option<Json>,
    wide: Party,
    narrow: Party,
)
    requires
        opens(wide, narrow),
    ensures
        covers(
            rule_duties(place, entries, applicability, wide),
            rule_duties(place, entries, applicability, narrow),
        ),
    decreases entries.len(),
{
    if entries.len() > 0 {
        let (id, leaf) = entries.last();
        lemma_rules_open(place, entries.drop_last(), applicability, wide, narrow);
        lemma_resolved_open(Place { id, ..place }, leaf, applicability, wide, narrow);
        lemma_covers_parts(
            rule_duties(place, entries.drop_last(), applicability, wide),
            opt_seq(resolved(Place { id, ..place }, leaf, applicability, wide)),
            rule_duties(place, entries.drop_last(), applicability, narrow),
            opt_seq(resolved(Place { id, ..place }, leaf, applicability, narrow)),
        );
    }
}

proof fn lemma_subsets_open(
    place: Place,
    body: Json,
    groups: Seq<(Seq<char>, Json)>,
    wide: Party,
    narrow: Party,
)
    requires
        opens(wide, narrow),
    ensures
        covers(
            subset_duties(place, body, groups, wide),
            subset_duties(place, body, groups, narrow),
        ),
    decreases groups.len(),
{
    if groups.len() > 0 {
        let (subset, entries) = groups.last();
        let terms = subset_terms(body, subset);
        let here = Place { subset, ..place };
        let rules = json::members_of(Some(entries));
        let w = subset_duties(place, body, groups.drop_last(), wide);
        let n = subset_duties(place, body, groups.drop_last(), narrow);
        lemma_subsets_open(place, body, groups.drop_last(), wide, narrow);
        lemma_rules_open(here, rules, terms, wide, narrow);
        if admits(terms, "paths"@, narrow.path) {
            lemma_covers_parts(
                w,
                rule_duties(here, rules, terms, wide),
                n,
                rule_duties(here, rules, terms, narrow),
            );
        } else {
            lemma_covers_parts(w, rule_duties(here, rules, terms, wide), n, Seq::empty());
            assert(n + Seq::<Duty>::empty() =~= n);
        }
    }
}

proof fn lemma_types_open(
    place: Place,
    body: Json,
    data: Seq<(Seq<char>, Json)>,
    wide: Party,
    narrow: Party,
)
    requires
        opens(wide, narrow),
    ensures
        covers(type_duties(place, body, data, wide), type_duties(place, body, data, narrow)),
    decreases data.len(),
{
    if data.len() > 0 {
        let (cert_type, groups) = data.last();
        let here = Place { cert_type, ..place };
        let subsets = json::members_of(Some(groups));
        let w = type_duties(place, body, data.drop_last(), wide);
        let n = type_duties(place, body, data.drop_last(), narrow);
        lemma_types_open(place, body, data.drop_last(), wide, narrow);
        lemma_subsets_open(here, body, subsets, wide, narrow);
        if type_admits(cert_type, narrow.cert_type) {
            lemma_covers_parts(
                w,
                subset_duties(here, body, subsets, wide),
                n,
                subset_duties(here, body, subsets, narrow),
            );
        } else {
            lemma_covers_parts(w, subset_duties(here, body, subsets, wide), n, Seq::empty());
            assert(n + Seq::<Duty>::empty() =~= n);
        }
    }
}

proof fn lemma_families_open(families: Seq<(Seq<char>, Json)>, wide: Party, narrow: Party)
    requires
        opens(wide, narrow),
    ensures
        covers(family_duties(families, wide), family_duties(families, narrow)),
    decreases families.len(),
{
    if families.len() > 0 {
        let (family, body) = families.last();
        let place = Place { family, ..nowhere() };
        let data = json::members_of(body.get("data"@));
        lemma_families_open(families.drop_last(), wide, narrow);
        lemma_types_open(place, body, data, wide, narrow);
        lemma_covers_parts(
            family_duties(families.drop_last(), wide),
            type_duties(place, body, data, wide),
            family_duties(families.drop_last(), narrow),
            type_duties(place, body, data, narrow),
        );
    }
}

/// A dimension that a profile leaves open hides no obligation: whatever a
/// narrower profile owes, the open one owes too, at least as strictly.
pub proof fn law_open_dimensions_hide_nothing(rules: Json, wide: Party, narrow: Party)
    requires
        opens(wide, narrow),
    ensures
        covers(selected(rules, wide), selected(rules, narrow)),
{
    let families = json::members_of(rules.get("FRR"@));
    let w = family_duties(families, wide);
    let n = family_duties(families, narrow);
    lemma_families_open(families, wide, narrow);
    lemma_by_id_sorted(w);
    lemma_by_id_sorted(n);
    w.to_multiset_ensures();
    n.to_multiset_ensures();
    by_id(w).to_multiset_ensures();
    by_id(n).to_multiset_ensures();
    assert forall|i: int| 0 <= i < by_id(n).len() implies has_no_laxer(
        by_id(w),
        #[trigger] by_id(n)[i],
    ) by {
        let d = by_id(n)[i];
        assert(by_id(n).contains(d));
        assert(by_id(n).to_multiset().count(d) > 0);
        assert(n.to_multiset().count(d) > 0);
        let j = choose|j: int| 0 <= j < n.len() && n[j] == d;
        assert(has_no_laxer(w, n[j]));
        let k = choose|k: int| 0 <= k < w.len() && no_laxer(#[trigger] w[k], d);
        assert(w.contains(w[k]));
        assert(w.to_multiset().count(w[k]) > 0);
        assert(by_id(w).to_multiset().count(w[k]) > 0);
        let m = choose|m: int| 0 <= m < by_id(w).len() && by_id(w)[m] == w[k];
        assert(no_laxer(by_id(w)[m], d));
    }
}

// What a duty says, and whose it is.

/// A text says what a member of a document reads, or nothing where it reads none.
pub open spec fn says(v: Json, key: Seq<char>, said: Seq<char>, otherwise: Seq<char>) -> bool {
    match v.get(key) {
        Some(Json::Text(s)) => said == s,
        _ => said == otherwise,
    }
}

/// A duty words its obligation as a document does: its statement, its force and
/// its timeframe are that document's own.
pub open spec fn worded_by(d: Duty, v: Json) -> bool {
    &&& says(v, "statement"@, d.statement, Seq::empty())
    &&& says(v, "force"@, d.force, "UNSPECIFIED"@)
    &&& d.timeframe is Some <==> v.signed_at("timeframe_num"@) is Some && (v.get(
        "timeframe_type"@,
    ) matches Some(unit) && unit is Text)
    &&& d.timeframe matches Some(t) ==> t == text::signed_decimal(
        v.signed_at("timeframe_num"@)->0 as int,
    ) + seq![' '] + v.get("timeframe_type"@)->0->Text_0
}

/// A duty stands where its rule does and has its rule's name and schema.
pub open spec fn stands_for(d: Duty, place: Place, leaf: Json) -> bool {
    &&& d.id == place.id
    &&& d.family == place.family
    &&& d.subset == place.subset
    &&& d.cert_type == place.cert_type
    &&& d.name == (match leaf.get("name"@) {
        Some(Json::Text(s)) => Some(s),
        _ => None,
    })
    &&& d.schema == (match leaf.get("schema"@) {
        Some(schema) => match schema.get("name"@) {
            Some(Json::Text(s)) => Some(s),
            _ => None,
        },
        None => None,
    })
}

proof fn lemma_duty(place: Place, leaf: Json, source: Json, class: Option<Seq<char>>)
    ensures
        worded_by(duty(place, leaf, source, class), source),
        stands_for(duty(place, leaf, source, class), place, leaf),
{
    reveal_strlit("");
    reveal_strlit(" ");
    assert(""@ =~= Seq::<char>::empty());
    assert(" "@ =~= seq![' ']);
}

/// Where a rule varies by class and the party's class has a variant, the duty is
/// worded by that variant and by nothing else, and says for which class it holds.
pub proof fn law_variant_speaks_for_its_class(
    place: Place,
    leaf: Json,
    applicability: Option<Json>,
    party: Party,
    class: Seq<char>,
    variants: Seq<(Seq<char>, Json)>,
    variant: Json,
)
    requires
        leaf.get("varies_by_class"@) == Some(Json::Object(variants)),
        party.class == Some(class),
        table::lookup(variants, text::ascii_lower(class)) == Some(variant),
    ensures
        resolved(place, leaf, applicability, party) matches Some(d) && worded_by(d, variant)
            && stands_for(d, place, leaf) && d.class == Some(text::ascii_upper(class)),
{
    lemma_duty(place, leaf, variant, Some(text::ascii_lower(class)));
    text::law_case_folds_letters_alone(class, class);
}

/// Where a rule varies by class and the party's class is open, the duty is worded
/// by a variant than which none is stricter, and says whose it is.
pub proof fn law_open_class_is_told_the_strictest(
    place: Place,
    leaf: Json,
    applicability: Option<Json>,
    party: Party,
    variants: Seq<(Seq<char>, Json)>,
)
    requires
        leaf.get("varies_by_class"@) == Some(Json::Object(variants)),
        party.class is None,
    ensures
        resolved(place, leaf, applicability, party) is Some <==> variants.len() > 0,
        resolved(place, leaf, applicability, party) matches Some(d) ==> stands_for(d, place, leaf)
            && exists|i: int|
            0 <= i < variants.len() && worded_by(d, (#[trigger] variants[i]).1) && d.class == Some(
                text::ascii_upper(variants[i].0),
            ) && forall|j: int|
                0 <= j < variants.len() ==> force_order(variants[i].1.text_at("force"@))
                    >= force_order((#[trigger] variants[j]).1.text_at("force"@)),
{
    if variants.len() > 0 {
        law_strictest_variant_is_reported(variants, 0);
        let best = strictest(variants)->0;
        lemma_duty(place, leaf, best.1, Some(best.0));
        let i = choose|i: int| 0 <= i < variants.len() && variants[i] == best;
        assert forall|j: int| 0 <= j < variants.len() implies force_order(
            variants[i].1.text_at("force"@),
        ) >= force_order((#[trigger] variants[j]).1.text_at("force"@)) by {
            law_strictest_variant_is_reported(variants, j);
        }
        assert(variants[i].1 == best.1);
    }
}

/// Where a rule does not vary by class, the duty is worded by the rule itself and
/// holds for no one class; it is owed unless the classes that the subset
/// declares leave the party's out.
pub proof fn law_plain_rule_speaks_for_itself(
    place: Place,
    leaf: Json,
    applicability: Option<Json>,
    party: Party,
)
    requires
        leaf.object_at("varies_by_class"@) is None,
    ensures
        resolved(place, leaf, applicability, party) is Some <==> admits(
            applicability,
            "classes"@,
            party.class,
        ),
        resolved(place, leaf, applicability, party) matches Some(d) ==> worded_by(d, leaf)
            && stands_for(d, place, leaf) && d.class is None,
{
    lemma_duty(place, leaf, leaf, None);
}

/// A declared list leaves out whoever it does not name, in whatever case; where
/// nothing is declared, or nothing asked, nobody is left out.
pub proof fn law_declared_lists_decide(terms: Json, key: Seq<char>, wanted: Seq<char>)
    ensures
        admits(None, key, Some(wanted)),
        admits(Some(terms), key, None),
        !(terms.get(key) matches Some(v) && v is Array) ==> admits(Some(terms), key, Some(wanted)),
        terms.get(key) matches Some(Json::Array(list)) ==> (admits(Some(terms), key, Some(wanted))
            <==> exists|i: int|
            0 <= i < list.len() && ((#[trigger] list[i]) matches Json::Text(s)
                && text::ascii_lower(s) == text::ascii_lower(wanted))),
{
    if let Some(Json::Array(list)) = terms.get(key) {
        assert(list_at(Some(terms), key) == Some(list));
        assert forall|i: int| 0 <= i < list.len() implies reads_like(#[trigger] list[i], wanted)
            == (list[i] matches Json::Text(s) && text::ascii_lower(s) == text::ascii_lower(
            wanted,
        )) by {}
    }
}

/// Whom a rule affects is what the rule says of itself, or else what its subset
/// declares, or else everyone.
pub proof fn law_rule_names_whom_it_affects(leaf: Json, applicability: Option<Json>, role: Seq<char>)
    ensures
        leaf.get("affects"@) matches Some(Json::Array(list)) ==> (affects(leaf, applicability, role)
            <==> exists|i: int|
            0 <= i < list.len() && ((#[trigger] list[i]) matches Json::Text(s)
                && text::ascii_lower(s) == text::ascii_lower(role))),
        leaf.get("affects"@) matches Some(v) && !(v is Array) ==> affects(leaf, applicability, role),
        leaf.get("affects"@) is None ==> affects(leaf, applicability, role) == admits(
            applicability,
            "affects"@,
            Some(role),
        ),
{
    if let Some(Json::Array(list)) = leaf.get("affects"@) {
        assert forall|i: int| 0 <= i < list.len() implies reads_like(#[trigger] list[i], role) == (
        list[i] matches Json::Text(s) && text::ascii_lower(s) == text::ascii_lower(role)) by {}
    }
}

/// A certification type is asked for by name, in whatever case; `all` is of every
/// type, and where none is asked for every type is.
pub proof fn law_certification_type_decides(cert_type: Seq<char>, wanted: Seq<char>)
    ensures
        type_admits(cert_type, None),
        type_admits("all"@, Some(wanted)),
        type_admits(cert_type, Some(wanted)) <==> cert_type == "all"@ || text::ascii_lower(
            cert_type,
        ) == text::ascii_lower(wanted),
{
}

proof fn lemma_same_members(a: Seq<Duty>, b: Seq<Duty>, d: Duty)
    requires
        a.to_multiset() == b.to_multiset(),
    ensures
        a.contains(d) <==> b.contains(d),
{
    a.to_multiset_ensures();
    b.to_multiset_ensures();
    assert(a.to_multiset().count(d) > 0 <==> a.contains(d));
    assert(b.to_multiset().count(d) > 0 <==> b.contains(d));
}

proof fn lemma_rule_owed(
    place: Place,
    entries: Seq<(Seq<char>, Json)>,
    applicability: Option<Json>,
    party: Party,
    d: Duty,
)
    ensures
        rule_duties(place, entries, applicability, party).contains(d) <==> exists|i: int|
            0 <= i < entries.len() && affects(
                (#[trigger] entries[i]).1,
                applicability,
                party.role,
            ) && resolved(Place { id: entries[i].0, ..place }, entries[i].1, applicability, party)
                == Some(d),
    decreases entries.len(),
{
    if entries.len() > 0 {
        let front = entries.drop_last();
        lemma_rule_owed(place, front, applicability, party, d);
        let rest = rule_duties(place, front, applicability, party);
        let now = rule_duties(place, entries, applicability, party);
        let n = entries.len() - 1;
        assert(entries[n] == entries.last());
        let more = if affects(entries[n].1, applicability, party.role) {
            opt_seq(
                resolved(Place { id: entries[n].0, ..place }, entries[n].1, applicability, party),
            )
        } else {
            Seq::empty()
        };
        assert(now =~= rest + more);
        lemma_joined_contains(rest, more, d);
        if rest.contains(d) {
            let i = choose|i: int|
                0 <= i < front.len() && affects((#[trigger] front[i]).1, applicability, party.role)
                    && resolved(
                    Place { id: front[i].0, ..place },
                    front[i].1,
                    applicability,
                    party,
                ) == Some(d);
            assert(entries[i] == front[i]);
        }
        if more.contains(d) {
            assert(more[0] == d);
            assert(affects(entries[n].1, applicability, party.role));
        }
        if exists|i: int|
            0 <= i < entries.len() && affects(
                (#[trigger] entries[i]).1,
                applicability,
                party.role,
            ) && resolved(Place { id: entries[i].0, ..place }, entries[i].1, applicability, party)
                == Some(d) {
            let i = choose|i: int|
                0 <= i < entries.len() && affects(
                    (#[trigger] entries[i]).1,
                    applicability,
                    party.role,
                ) && resolved(
                    Place { id: entries[i].0, ..place },
                    entries[i].1,
                    applicability,
                    party,
                ) == Some(d);
            if i < front.len() {
                assert(front[i] == entries[i]);
            } else {
                assert(more[0] == d);
            }
        }
    }
}

proof fn lemma_joined_contains(a: Seq<Duty>, b: Seq<Duty>, d: Duty)
    ensures
        (a + b).contains(d) <==> a.contains(d) || b.contains(d),
{
    if a.contains(d) {
        let i = choose|i: int| 0 <= i < a.len() && a[i] == d;
        assert((a + b)[i] == d);
    }
    if b.contains(d) {
        let i = choose|i: int| 0 <= i < b.len() && b[i] == d;
        assert((a + b)[a.len() + i] == d);
    }
    if (a + b).contains(d) {
        let i = choose|i: int| 0 <= i < (a + b).len() && (a + b)[i] == d;
        if i < a.len() {
            assert(a[i] == d);
        } else {
            assert(b[i - a.len()] == d);
        }
    }
}

proof fn lemma_subset_owed(
    place: Place,
    body: Json,
    groups: Seq<(Seq<char>, Json)>,
    party: Party,
    d: Duty,
)
    ensures
        subset_duties(place, body, groups, party).contains(d) <==> exists|i: int|
            0 <= i < groups.len() && admits(
                subset_terms(body, (#[trigger] groups[i]).0),
                "paths"@,
                party.path,
            ) && rule_duties(
                Place { subset: groups[i].0, ..place },
                json::members_of(Some(groups[i].1)),
                subset_terms(body, groups[i].0),
                party,
            ).contains(d),
    decreases groups.len(),
{
    if groups.len() > 0 {
        let front = groups.drop_last();
        lemma_subset_owed(place, body, front, party, d);
        let rest = subset_duties(place, body, front, party);
        let now = subset_duties(place, body, groups, party);
        let n = groups.len() - 1;
        assert(groups[n] == groups.last());
        let more = if admits(subset_terms(body, groups[n].0), "paths"@, party.path) {
            rule_duties(
                Place { subset: groups[n].0, ..place },
                json::members_of(Some(groups[n].1)),
                subset_terms(body, groups[n].0),
                party,
            )
        } else {
            Seq::empty()
        };
        assert(now =~= rest + more);
        lemma_joined_contains(rest, more, d);
        if rest.contains(d) {
            let i = choose|i: int|
                0 <= i < front.len() && admits(
                    subset_terms(body, (#[trigger] front[i]).0),
                    "paths"@,
                    party.path,
                ) && rule_duties(
                    Place { subset: front[i].0, ..place },
                    json::members_of(Some(front[i].1)),
                    subset_terms(body, front[i].0),
                    party,
                ).contains(d);
            assert(groups[i] == front[i]);
        }
        if exists|i: int|
            0 <= i < groups.len() && admits(
                subset_terms(body, (#[trigger] groups[i]).0),
                "paths"@,
                party.path,
            ) && rule_duties(
                Place { subset: groups[i].0, ..place },
                json::members_of(Some(groups[i].1)),
                subset_terms(body, groups[i].0),
                party,
            ).contains(d) {
            let i = choose|i: int|
                0 <= i < groups.len() && admits(
                    subset_terms(body, (#[trigger] groups[i]).0),
                    "paths"@,
                    party.path,
                ) && rule_duties(
                    Place { subset: groups[i].0, ..place },
                    json::members_of(Some(groups[i].1)),
                    subset_terms(body, groups[i].0),
                    party,
                ).contains(d);
            if i < front.len() {
                assert(front[i] == groups[i]);
            }
        }
    }
}

proof fn lemma_type_owed(
    place: Place,
    body: Json,
    data: Seq<(Seq<char>, Json)>,
    party: Party,
    d: Duty,
)
    ensures
        type_duties(place, body, data, party).contains(d) <==> exists|i: int|
            0 <= i < data.len() && type_admits((#[trigger] data[i]).0, party.cert_type)
                && subset_duties(
                Place { cert_type: data[i].0, ..place },
                body,
                json::members_of(Some(data[i].1)),
                party,
            ).contains(d),
    decreases data.len(),
{
    if data.len() > 0 {
        let front = data.drop_last();
        lemma_type_owed(place, body, front, party, d);
        let rest = type_duties(place, body, front, party);
        let now = type_duties(place, body, data, party);
        let n = data.len() - 1;
        assert(data[n] == data.last());
        let more = if type_admits(data[n].0, party.cert_type) {
            subset_duties(
                Place { cert_type: data[n].0, ..place },
                body,
                json::members_of(Some(data[n].1)),
                party,
            )
        } else {
            Seq::empty()
        };
        assert(now =~= rest + more);
        lemma_joined_contains(rest, more, d);
        if rest.contains(d) {
            let i = choose|i: int|
                0 <= i < front.len() && type_admits((#[trigger] front[i]).0, party.cert_type)
                    && subset_duties(
                    Place { cert_type: front[i].0, ..place },
                    body,
                    json::members_of(Some(front[i].1)),
                    party,
                ).contains(d);
            assert(data[i] == front[i]);
        }
        if exists|i: int|
            0 <= i < data.len() && type_admits((#[trigger] data[i]).0, party.cert_type)
                && subset_duties(
                Place { cert_type: data[i].0, ..place },
                body,
                json::members_of(Some(data[i].1)),
                party,
            ).contains(d) {
            let i = choose|i: int|
                0 <= i < data.len() && type_admits((#[trigger] data[i]).0, party.cert_type)
                    && subset_duties(
                    Place { cert_type: data[i].0, ..place },
                    body,
                    json::members_of(Some(data[i].1)),
                    party,
                ).contains(d);
            if i < front.len() {
                assert(front[i] == data[i]);
            }
        }
    }
}

proof fn lemma_family_owed(families: Seq<(Seq<char>, Json)>, party: Party, d: Duty)
    ensures
        family_duties(families, party).contains(d) <==> exists|i: int|
            0 <= i < families.len() && type_duties(
                Place { family: (#[trigger] families[i]).0, ..nowhere() },
                families[i].1,
                json::members_of(families[i].1.get("data"@)),
                party,
            ).contains(d),
    decreases families.len(),
{
    if families.len() > 0 {
        let front = families.drop_last();
        lemma_family_owed(front, party, d);
        let rest = family_duties(front, party);
        let n = families.len() - 1;
        assert(families[n] == families.last());
        let more = type_duties(
            Place { family: families[n].0, ..nowhere() },
            families[n].1,
            json::members_of(families[n].1.get("data"@)),
            party,
        );
        assert(family_duties(families, party) == rest + more);
        lemma_joined_contains(rest, more, d);
        if rest.contains(d) {
            let i = choose|i: int|
                0 <= i < front.len() && type_duties(
                    Place { family: (#[trigger] front[i]).0, ..nowhere() },
                    front[i].1,
                    json::members_of(front[i].1.get("data"@)),
                    party,
                ).contains(d);
            assert(families[i] == front[i]);
        }
        if exists|i: int|
            0 <= i < families.len() && type_duties(
                Place { family: (#[trigger] families[i]).0, ..nowhere() },
                families[i].1,
                json::members_of(families[i].1.get("data"@)),
                party,
            ).contains(d) {
            let i = choose|i: int|
                0 <= i < families.len() && type_duties(
                    Place { family: (#[trigger] families[i]).0, ..nowhere() },
                    families[i].1,
                    json::members_of(families[i].1.get("data"@)),
                    party,
                ).contains(d);
            if i < front.len() {
                assert(front[i] == families[i]);
            }
        }
    }
}

/// The rule at a place in a ruleset.
pub open spec fn rule_at(rules: Json, place: Place) -> Option<Json> {
    json::at(
        rules,
        seq!["FRR"@, place.family, "data"@, place.cert_type, place.subset, place.id],
    )
}

/// What the family declares of the subset that a place is in.
pub open spec fn terms_at(rules: Json, place: Place) -> Option<Json> {
    match json::at(rules, seq!["FRR"@, place.family]) {
        Some(body) => json::at(body, seq!["info"@, "subsets"@, place.subset, "applicability"@]),
        None => None,
    }
}

/// The place that a duty names.
pub open spec fn place_of(d: Duty) -> Place {
    Place { id: d.id, family: d.family, subset: d.subset, cert_type: d.cert_type }
}

/// A party comes under a rule: its certification type, its path and its role are
/// each asked for.
pub open spec fn comes_under(party: Party, rules: Json, place: Place, leaf: Json) -> bool {
    &&& type_admits(place.cert_type, party.cert_type)
    &&& admits(terms_at(rules, place), "paths"@, party.path)
    &&& affects(leaf, terms_at(rules, place), party.role)
}

proof fn lemma_at_steps(rules: Json, place: Place)
    ensures
        json::at(rules, seq!["FRR"@, place.family]) == (match rules.get("FRR"@) {
            Some(frr) => frr.get(place.family),
            None => None,
        }),
        rule_at(rules, place) == (match rules.get("FRR"@) {
            Some(frr) => match frr.get(place.family) {
                Some(body) => match body.get("data"@) {
                    Some(data) => match data.get(place.cert_type) {
                        Some(groups) => match groups.get(place.subset) {
                            Some(entries) => entries.get(place.id),
                            None => None,
                        },
                        None => None,
                    },
                    None => None,
                },
                None => None,
            },
            None => None,
        }),
{
    let path = seq!["FRR"@, place.family, "data"@, place.cert_type, place.subset, place.id];
    let p5 = path.drop_last();
    let p4 = p5.drop_last();
    let p3 = p4.drop_last();
    let p2 = p3.drop_last();
    let p1 = p2.drop_last();
    let p0 = p1.drop_last();
    assert(p2 =~= seq!["FRR"@, place.family]);
    assert(p0.len() == 0);
    assert(json::at(rules, p0) == Some(rules));
    assert(p1.last() == "FRR"@);
    assert(p2.last() == place.family);
    assert(p3.last() == "data"@);
    assert(p4.last() == place.cert_type);
    assert(p5.last() == place.subset);
    assert(path.last() == place.id);
    assert(json::at(rules, p1) == rules.get("FRR"@));
    assert(json::at(rules, p2) == (match json::at(rules, p1) {
        Some(v) => v.get(place.family),
        None => None,
    }));
    assert(json::at(rules, p3) == (match json::at(rules, p2) {
        Some(v) => v.get("data"@),
        None => None,
    }));
    assert(json::at(rules, p4) == (match json::at(rules, p3) {
        Some(v) => v.get(place.cert_type),
        None => None,
    }));
    assert(json::at(rules, p5) == (match json::at(rules, p4) {
        Some(v) => v.get(place.subset),
        None => None,
    }));
}

/// Every rule that a party comes under and that resolves for it is among its
/// obligations.
pub proof fn law_every_rule_owed_is_selected(rules: Json, party: Party, place: Place, leaf: Json)
    requires
        rule_at(rules, place) == Some(leaf),
        comes_under(party, rules, place, leaf),
        resolved(place, leaf, terms_at(rules, place), party) is Some,
    ensures
        selected(rules, party).contains(
            resolved(place, leaf, terms_at(rules, place), party)->0,
        ),
{
    lemma_at_steps(rules, place);
    let d = resolved(place, leaf, terms_at(rules, place), party)->0;
    let frr = rules.get("FRR"@)->0;
    let families = json::members_of(rules.get("FRR"@));
    let body = frr.get(place.family)->0;
    let data = json::members_of(body.get("data"@));
    let groups_doc = body.get("data"@)->0.get(place.cert_type)->0;
    let groups = json::members_of(Some(groups_doc));
    let entries_doc = groups_doc.get(place.subset)->0;
    let entries = json::members_of(Some(entries_doc));
    let terms = subset_terms(body, place.subset);
    assert(terms == terms_at(rules, place));
    let in_family = Place { family: place.family, ..nowhere() };
    let in_type = Place { cert_type: place.cert_type, ..in_family };
    let in_subset = Place { subset: place.subset, ..in_type };
    let i = table::lemma_lookup_index(families, place.family);
    let j = table::lemma_lookup_index(data, place.cert_type);
    let k = table::lemma_lookup_index(groups, place.subset);
    let l = table::lemma_lookup_index(entries, place.id);
    assert((Place { id: place.id, ..in_subset }) == place);
    lemma_rule_owed(in_subset, entries, terms, party, d);
    assert(affects(entries[l].1, terms, party.role));
    assert(rule_duties(in_subset, entries, terms, party).contains(d));
    lemma_subset_owed(in_type, body, groups, party, d);
    assert(admits(subset_terms(body, groups[k].0), "paths"@, party.path));
    assert(subset_duties(in_type, body, groups, party).contains(d));
    lemma_type_owed(in_family, body, data, party, d);
    assert(type_admits(data[j].0, party.cert_type));
    assert(type_duties(in_family, body, data, party).contains(d));
    lemma_family_owed(families, party, d);
    assert(families[i].0 == place.family);
    law_selection_is_sorted(rules, party);
    lemma_same_members(selected(rules, party), family_duties(families, party), d);
}

proof fn lemma_inner_formed(v: Json, i: int)
    requires
        outside::well_formed(v),
        0 <= i < json::members_of(Some(v)).len(),
    ensures
        v.get(json::members_of(Some(v))[i].0) == Some(json::members_of(Some(v))[i].1),
        outside::well_formed(json::members_of(Some(v))[i].1),
{
    let m = v->Object_0;
    table::lemma_lookup_entry(m, i);
    assert(outside::well_formed(m[i].1));
}

/// Every obligation of a party is that of a rule that the ruleset has at the
/// place it names, that the party comes under, and that resolves to it.
pub proof fn law_every_duty_is_of_a_rule(rules: Json, party: Party, d: Duty)
    requires
        outside::well_formed(rules),
        selected(rules, party).contains(d),
    ensures
        rule_at(rules, place_of(d)) matches Some(leaf) && comes_under(
            party,
            rules,
            place_of(d),
            leaf,
        ) && resolved(place_of(d), leaf, terms_at(rules, place_of(d)), party) == Some(d),
{
    let families = json::members_of(rules.get("FRR"@));
    law_selection_is_sorted(rules, party);
    lemma_same_members(selected(rules, party), family_duties(families, party), d);
    lemma_family_owed(families, party, d);
    let i = choose|i: int|
        0 <= i < families.len() && type_duties(
            Place { family: (#[trigger] families[i]).0, ..nowhere() },
            families[i].1,
            json::members_of(families[i].1.get("data"@)),
            party,
        ).contains(d);
    let frr = rules.get("FRR"@)->0;
    let root = rules->Object_0;
    let r = table::lemma_lookup_index(root, "FRR"@);
    assert(outside::well_formed(root[r].1));
    lemma_inner_formed(frr, i);
    let (family, body) = families[i];
    let in_family = Place { family, ..nowhere() };
    let data = json::members_of(body.get("data"@));
    lemma_type_owed(in_family, body, data, party, d);
    let j = choose|j: int|
        0 <= j < data.len() && type_admits((#[trigger] data[j]).0, party.cert_type)
            && subset_duties(
            Place { cert_type: data[j].0, ..in_family },
            body,
            json::members_of(Some(data[j].1)),
            party,
        ).contains(d);
    let data_doc = body.get("data"@)->0;
    let q = table::lemma_lookup_index(body->Object_0, "data"@);
    assert(outside::well_formed(body->Object_0[q].1));
    lemma_inner_formed(data_doc, j);
    let (cert_type, groups_doc) = data[j];
    let in_type = Place { cert_type, ..in_family };
    let groups = json::members_of(Some(groups_doc));
    lemma_subset_owed(in_type, body, groups, party, d);
    let k = choose|k: int|
        0 <= k < groups.len() && admits(
            subset_terms(body, (#[trigger] groups[k]).0),
            "paths"@,
            party.path,
        ) && rule_duties(
            Place { subset: groups[k].0, ..in_type },
            json::members_of(Some(groups[k].1)),
            subset_terms(body, groups[k].0),
            party,
        ).contains(d);
    lemma_inner_formed(groups_doc, k);
    let (subset, entries_doc) = groups[k];
    let in_subset = Place { subset, ..in_type };
    let entries = json::members_of(Some(entries_doc));
    let terms = subset_terms(body, subset);
    lemma_rule_owed(in_subset, entries, terms, party, d);
    let l = choose|l: int|
        0 <= l < entries.len() && affects((#[trigger] entries[l]).1, terms, party.role) && resolved(
            Place { id: entries[l].0, ..in_subset },
            entries[l].1,
            terms,
            party,
        ) == Some(d);
    lemma_inner_formed(entries_doc, l);
    let (id, leaf) = entries[l];
    let place = Place { id, ..in_subset };
    lemma_resolved_place(place, leaf, terms, party);
    assert(place_of(d) == place);
    lemma_at_steps(rules, place);
    assert(terms_at(rules, place) == terms);
}

proof fn lemma_resolved_place(
    place: Place,
    leaf: Json,
    applicability: Option<Json>,
    party: Party,
)
    ensures
        resolved(place, leaf, applicability, party) matches Some(d) ==> d.id == place.id && d.family
            == place.family && d.subset == place.subset && d.cert_type == place.cert_type,
{
}

/// What a selected obligation says is what the ruleset says at its place: the
/// variant of the party's class where the rule varies by class, the rule itself
/// where it does not.
pub proof fn law_selected_duty_says_what_its_rule_says(rules: Json, party: Party, d: Duty)
    requires
        outside::well_formed(rules),
        selected(rules, party).contains(d),
    ensures
        rule_at(rules, place_of(d)) matches Some(leaf) && stands_for(d, place_of(d), leaf) && (
        match leaf.get("varies_by_class"@) {
            Some(Json::Object(variants)) => match party.class {
                Some(class) => table::lookup(variants, text::ascii_lower(class)) matches Some(
                    variant,
                ) && worded_by(d, variant) && d.class == Some(text::ascii_upper(class)),
                None => exists|i: int|
                    0 <= i < variants.len() && worded_by(d, (#[trigger] variants[i]).1) && d.class
                        == Some(text::ascii_upper(variants[i].0)),
            },
            _ => worded_by(d, leaf) && d.class is None,
        }),
{
    law_every_duty_is_of_a_rule(rules, party, d);
    let place = place_of(d);
    let leaf = rule_at(rules, place)->0;
    let terms = terms_at(rules, place);
    match leaf.get("varies_by_class"@) {
        Some(Json::Object(variants)) => {
            match party.class {
                Some(class) => {
                    let variant = table::lookup(variants, text::ascii_lower(class))->0;
                    law_variant_speaks_for_its_class(
                        place,
                        leaf,
                        terms,
                        party,
                        class,
                        variants,
                        variant,
                    );
                },
                None => {
                    law_open_class_is_told_the_strictest(place, leaf, terms, party, variants);
                },
            }
        },
        _ => {
            law_plain_rule_speaks_for_itself(place, leaf, terms, party);
        },
    }
}

// What an impact says.

proof fn lemma_indexed_exact(list: Seq<Duty>, id: Seq<char>)
    ensures
        table::lookup(indexed(list), id) matches Some(d) ==> list.contains(d) && d.id == id,
        table::lookup(indexed(list), id) is None ==> forall|i: int|
            0 <= i < list.len() ==> (#[trigger] list[i]).id != id,
    decreases list.len(),
{
    if list.len() > 0 {
        let front = list.drop_last();
        lemma_indexed_exact(front, id);
        lemma_indexed_ordered(front);
        table::lemma_put_lookup(indexed(front), list.last().id, list.last(), id);
        if id == list.last().id {
            assert(list[list.len() - 1] == list.last());
        } else {
            if let Some(d) = table::lookup(indexed(front), id) {
                let i = choose|i: int| 0 <= i < front.len() && front[i] == d;
                assert(list[i] == d);
            } else {
                assert forall|i: int| 0 <= i < list.len() implies (#[trigger] list[i]).id != id by {
                    if i < front.len() {
                        assert(front[i] == list[i]);
                    }
                }
            }
        }
    }
}

/// Some duty of a list has this id.
pub open spec fn has_id(list: Seq<Duty>, id: Seq<char>) -> bool {
    exists|i: int| 0 <= i < list.len() && (#[trigger] list[i]).id == id
}

/// No two duties of a list have one id.
pub open spec fn each_once(list: Seq<Duty>) -> bool {
    forall|i: int, j: int|
        0 <= i < j < list.len() ==> (#[trigger] list[i]).id != (#[trigger] list[j]).id
}

proof fn lemma_has_id(list: Seq<Duty>, id: Seq<char>)
    ensures
        has_id(list, id) <==> table::lookup(indexed(list), id) is Some,
{
    lemma_indexed_exact(list, id);
    if let Some(d) = table::lookup(indexed(list), id) {
        let i = choose|i: int| 0 <= i < list.len() && list[i] == d;
        assert(list[i].id == id);
    }
}

proof fn lemma_beyond_exact(a: Seq<(Seq<char>, Duty)>, b: Seq<(Seq<char>, Duty)>, d: Duty)
    requires
        table::ordered(a),
        forall|i: int| 0 <= i < a.len() ==> (#[trigger] a[i]).0 == a[i].1.id,
    ensures
        beyond(a, b).contains(d) <==> table::lookup(a, d.id) == Some(d) && table::lookup(b, d.id)
            is None,
    decreases a.len(),
{
    if a.len() > 0 {
        let front = a.drop_last();
        let last = a[a.len() - 1];
        assert forall|i: int| 0 <= i < front.len() implies (#[trigger] front[i]).0
            == front[i].1.id by {
            assert(a[i] == front[i]);
        }
        lemma_lookup_last(a, d.id);
        lemma_lookup_last(a, last.0);
        lemma_beyond_exact(front, b, d);
        if d.id == last.0 && table::lookup(front, d.id) is Some {
            let i = table::lemma_lookup_index(front, d.id);
            assert(a[i].0 == d.id);
            text::lemma_text_lt_irreflexive(d.id);
            assert(text::text_lt(a[i].0, a[a.len() - 1].0));
        }
        let rest = beyond(front, b);
        let now = beyond(a, b);
        if rest.contains(d) {
            let k = choose|k: int| 0 <= k < rest.len() && rest[k] == d;
            assert(now[k] == d);
        }
        if now.contains(d) {
            let k = choose|k: int| 0 <= k < now.len() && now[k] == d;
            if k < rest.len() {
                assert(rest[k] == d);
            }
        }
        if last.1 == d && table::lookup(b, d.id) is None {
            assert(now[now.len() - 1] == d);
        }
    }
}

proof fn lemma_own_ids(list: Seq<Duty>)
    ensures
        table::ordered(indexed(list)),
        forall|i: int| 0 <= i < indexed(list).len() ==> (#[trigger] indexed(list)[i]).0 == indexed(
            list,
        )[i].1.id,
{
    lemma_indexed_ordered(list);
    assert forall|i: int| 0 <= i < indexed(list).len() implies (#[trigger] indexed(list)[i]).0
        == indexed(list)[i].1.id by {
        lemma_indexed_by_own_id(list, i);
    }
}

/// What an impact lists as added is exactly what is owed after and was not owed
/// before, and as removed what was owed before and no longer is: by id, each
/// once, and each as the ruleset that has it says it.
pub proof fn law_impact_is_exact(before: Json, after: Json, party: Party, id: Seq<char>)
    ensures
        ({
            let found = impact(before, after, party);
            let old_duties = selected(before, party);
            let new_duties = selected(after, party);
            &&& has_id(found.added, id) <==> has_id(new_duties, id) && !has_id(old_duties, id)
            &&& has_id(found.removed, id) <==> has_id(old_duties, id) && !has_id(new_duties, id)
            &&& forall|i: int|
                0 <= i < found.added.len() ==> new_duties.contains(#[trigger] found.added[i])
            &&& forall|i: int|
                0 <= i < found.removed.len() ==> old_duties.contains(#[trigger] found.removed[i])
            &&& each_once(found.added)
            &&& each_once(found.removed)
        }),
{
    lemma_added_exact(selected(before, party), selected(after, party), id);
    lemma_added_exact(selected(after, party), selected(before, party), id);
}

proof fn lemma_added_exact(old_duties: Seq<Duty>, new_duties: Seq<Duty>, id: Seq<char>)
    ensures
        ({
            let added = beyond(indexed(new_duties), indexed(old_duties));
            &&& has_id(added, id) <==> has_id(new_duties, id) && !has_id(old_duties, id)
            &&& forall|i: int| 0 <= i < added.len() ==> new_duties.contains(#[trigger] added[i])
            &&& each_once(added)
        }),
{
    let a = indexed(new_duties);
    let b = indexed(old_duties);
    let added = beyond(a, b);
    lemma_own_ids(new_duties);
    lemma_own_ids(old_duties);
    lemma_has_id(new_duties, id);
    lemma_has_id(old_duties, id);
    lemma_indexed_exact(new_duties, id);
    lemma_beyond(a, b);
    if has_id(added, id) {
        let k = choose|k: int| 0 <= k < added.len() && (#[trigger] added[k]).id == id;
        assert(added.contains(added[k]));
    }
    if has_id(new_duties, id) && !has_id(old_duties, id) {
        let d = table::lookup(a, id)->0;
        lemma_beyond_exact(a, b, d);
        let k = choose|k: int| 0 <= k < added.len() && added[k] == d;
        assert(added[k].id == id);
    }
    assert forall|i: int| 0 <= i < added.len() implies new_duties.contains(#[trigger] added[i]) by {
        assert(added.contains(added[i]));
        lemma_beyond_exact(a, b, added[i]);
        lemma_indexed_exact(new_duties, added[i].id);
    }
    assert forall|i: int, j: int| 0 <= i < j < added.len() implies (#[trigger] added[i]).id != (
    #[trigger] added[j]).id by {
        text::lemma_text_lt_irreflexive(added[i].id);
    }
}

proof fn lemma_shifted_exact(a: Seq<(Seq<char>, Duty)>, b: Seq<(Seq<char>, Duty)>, s: Shift)
    requires
        table::ordered(a),
    ensures
        shifted(a, b).contains(s) <==> {
            &&& table::lookup(a, s.id) is Some
            &&& table::lookup(b, s.id) is Some
            &&& s.from != s.to
            &&& {
                ||| s.field == "force"@ && s.from == table::lookup(a, s.id)->0.force && s.to
                    == table::lookup(b, s.id)->0.force
                ||| s.field == "statement"@ && s.from == table::lookup(a, s.id)->0.statement && s.to
                    == table::lookup(b, s.id)->0.statement
            }
        },
    decreases a.len(),
{
    if a.len() > 0 {
        let front = a.drop_last();
        let (id, old_duty) = a[a.len() - 1];
        lemma_lookup_last(a, s.id);
        lemma_lookup_last(a, id);
        lemma_shifted_exact(front, b, s);
        let rest = shifted(front, b);
        let now = shifted(a, b);
        if let Some(new_duty) = table::lookup(b, id) {
            let f = field_shift(id, "force"@, old_duty.force, new_duty.force);
            let t = field_shift(id, "statement"@, old_duty.statement, new_duty.statement);
            assert(now == rest + f + t);
            if rest.contains(s) {
                let k = choose|k: int| 0 <= k < rest.len() && rest[k] == s;
                assert(now[k] == s);
            }
            if f.len() > 0 {
                assert(now[rest.len() as int] == f[0]);
            }
            if t.len() > 0 {
                assert(now[(rest.len() + f.len()) as int] == t[0]);
            }
            if now.contains(s) {
                let k = choose|k: int| 0 <= k < now.len() && now[k] == s;
                if k < rest.len() {
                    assert(rest[k] == s);
                } else if k < rest.len() + f.len() {
                    assert(f[0] == s);
                } else {
                    assert(t[0] == s);
                }
            }
            if table::lookup(front, s.id) is Some {
                let i = table::lemma_lookup_index(front, s.id);
                assert(a[i].0 == s.id);
                if s.id == id {
                    text::lemma_text_lt_irreflexive(id);
                    assert(text::text_lt(a[i].0, a[a.len() - 1].0));
                }
            }
        }
    }
}

/// A change is listed exactly where a duty owed before and after differs in its
/// force or its statement, with the old text before and the new text after.
pub proof fn law_changes_are_exact(before: Json, after: Json, party: Party, s: Shift)
    requires
        each_once(selected(before, party)),
        each_once(selected(after, party)),
    ensures
        impact(before, after, party).changed.contains(s) <==> exists|i: int, j: int|
            0 <= i < selected(before, party).len() && 0 <= j < selected(after, party).len() && (
            #[trigger] selected(before, party)[i]).id == s.id && (#[trigger] selected(
                after,
                party,
            )[j]).id == s.id && s.from != s.to && (s.field == "force"@ && s.from == selected(
                before,
                party,
            )[i].force && s.to == selected(after, party)[j].force || s.field == "statement"@
                && s.from == selected(before, party)[i].statement && s.to == selected(
                after,
                party,
            )[j].statement),
{
    let x = selected(before, party);
    let y = selected(after, party);
    lemma_own_ids(x);
    lemma_shifted_exact(indexed(x), indexed(y), s);
    lemma_indexed_exact(x, s.id);
    lemma_indexed_exact(y, s.id);
    if impact(before, after, party).changed.contains(s) {
        let d = table::lookup(indexed(x), s.id)->0;
        let e = table::lookup(indexed(y), s.id)->0;
        let i = choose|i: int| 0 <= i < x.len() && x[i] == d;
        let j = choose|j: int| 0 <= j < y.len() && y[j] == e;
        assert(x[i].id == s.id && y[j].id == s.id);
    }
    if exists|i: int, j: int|
        0 <= i < x.len() && 0 <= j < y.len() && (#[trigger] x[i]).id == s.id && (
        #[trigger] y[j]).id == s.id && s.from != s.to && (s.field == "force"@ && s.from
            == x[i].force && s.to == y[j].force || s.field == "statement"@ && s.from
            == x[i].statement && s.to == y[j].statement) {
        let (i, j) = choose|i: int, j: int|
            0 <= i < x.len() && 0 <= j < y.len() && (#[trigger] x[i]).id == s.id && (
            #[trigger] y[j]).id == s.id && s.from != s.to && (s.field == "force"@ && s.from
                == x[i].force && s.to == y[j].force || s.field == "statement"@ && s.from
                == x[i].statement && s.to == y[j].statement);
        lemma_once(x, i);
        lemma_once(y, j);
    }
}

proof fn lemma_once(list: Seq<Duty>, i: int)
    requires
        each_once(list),
        0 <= i < list.len(),
    ensures
        table::lookup(indexed(list), list[i].id) == Some(list[i]),
{
    let id = list[i].id;
    lemma_indexed_exact(list, id);
    if let Some(d) = table::lookup(indexed(list), id) {
        let k = choose|k: int| 0 <= k < list.len() && list[k] == d;
        if k < i {
            assert(list[k].id != list[i].id);
        } else if i < k {
            assert(list[i].id != list[k].id);
        }
    }
}

/// The binding shifts among some changes are exactly those of a force that
/// crosses from what must be done to what need not be, or back.
pub proof fn law_binding_shifts_are_exact(changed: Seq<Shift>, s: Shift)
    ensures
        binding_only(changed).contains(s) <==> changed.contains(s) && s.field == "force"@ && ((
        s.from == "MUST"@ || s.from == "MUST NOT"@) != (s.to == "MUST"@ || s.to == "MUST NOT"@)),
        binding_only(changed).len() <= changed.len(),
    decreases changed.len(),
{
    if changed.len() > 0 {
        let front = changed.drop_last();
        law_binding_shifts_are_exact(front, s);
        let rest = binding_only(front);
        let now = binding_only(changed);
        let last = changed[changed.len() - 1];
        if changed.contains(s) && s != last {
            let k = choose|k: int| 0 <= k < changed.len() && changed[k] == s;
            assert(front[k] == s);
        }
        if front.contains(s) {
            let k = choose|k: int| 0 <= k < front.len() && front[k] == s;
            assert(changed[k] == s);
        }
        if rest.contains(s) {
            let k = choose|k: int| 0 <= k < rest.len() && rest[k] == s;
            assert(now[k] == s);
        }
        if now.contains(s) {
            let k = choose|k: int| 0 <= k < now.len() && now[k] == s;
            if k < rest.len() {
                assert(rest[k] == s);
            }
        }
        if s == last && shifts_binding(last) {
            assert(now[now.len() - 1] == s);
        }
    }
}

/// A party's label names its role, and its class, type and path where it has them,
/// in that order.
pub proof fn law_label_names_what_is_set(party: Party)
    ensures
        text::begins(party.label_text(), party.role),
        party.class is None && party.cert_type is None && party.path is None ==> party.label_text()
            == party.role,
        party.class matches Some(c) ==> text::begins(
            party.label_text(),
            party.role + ", class "@ + c,
        ),
        party.cert_type matches Some(t) ==> text::holds(party.label_text(), ", type "@ + t),
        party.path matches Some(p) ==> text::holds(party.label_text(), ", path "@ + p),
{
    reveal_strlit("class");
    reveal_strlit("type");
    reveal_strlit("path");
    reveal_strlit(" ");
    reveal_strlit(", ");
    reveal_strlit(", class ");
    reveal_strlit(", type ");
    reveal_strlit(", path ");
    let sep = ", "@;
    let p0 = seq![party.role];
    let p1 = p0 + label_part("class"@, party.class);
    let p2 = p1 + label_part("type"@, party.cert_type);
    let p3 = p2 + label_part("path"@, party.path);
    let l0 = text::join(p0, sep);
    let l1 = text::join(p1, sep);
    let l2 = text::join(p2, sep);
    let l3 = text::join(p3, sep);
    assert(l0 == party.role);
    text::lemma_begins_self(l0);
    text::lemma_begins_self(l1);
    text::lemma_begins_self(l2);
    text::lemma_begins_self(l3);
    if let Some(c) = party.class {
        assert(p1.drop_last() =~= p0);
        assert(l1 =~= party.role + ", class "@ + c);
        assert(l1 =~= l0 + (", class "@ + c));
        text::lemma_begins_more(l0, ", class "@ + c, l0);
    } else {
        assert(p1 =~= p0);
    }
    if let Some(t) = party.cert_type {
        assert(p2.drop_last() =~= p1);
        assert(l2 =~= l1 + (", type "@ + t));
        text::lemma_begins_more(l1, ", type "@ + t, l1);
        text::lemma_holds_last(l1, ", type "@ + t);
    } else {
        assert(p2 =~= p1);
    }
    if let Some(p) = party.path {
        assert(p3.drop_last() =~= p2);
        assert(l3 =~= l2 + (", path "@ + p));
        text::lemma_begins_more(l2, ", path "@ + p, l2);
        text::lemma_holds_last(l2, ", path "@ + p);
    } else {
        assert(p3 =~= p2);
    }
    assert(party.label_text() == l3);
    text::lemma_begins_through(l3, l2, l1);
    text::lemma_begins_through(l3, l1, l0);
    if let Some(t) = party.cert_type {
        text::lemma_holds_begun(l3, l2, ", type "@ + t);
    }
}

/// An impact names the party it is of.
pub proof fn law_impact_names_its_party(before: Json, after: Json, party: Party)
    ensures
        impact(before, after, party).profile == party.label_text(),
{
}

/// What must or must not be done is stricter than what should or should not, that
/// than what may be, that than any other force, and none is laxest.
pub proof fn law_forces_are_ordered(other: Seq<char>)
    ensures
        force_order(Some("MUST"@)) == force_order(Some("MUST NOT"@)),
        force_order(Some("MUST"@)) > force_order(Some("SHOULD"@)),
        force_order(Some("SHOULD"@)) == force_order(Some("SHOULD NOT"@)),
        force_order(Some("SHOULD"@)) > force_order(Some("MAY"@)),
        other != "MUST"@ && other != "MUST NOT"@ && other != "SHOULD"@ && other != "SHOULD NOT"@
            && other != "MAY"@ ==> force_order(Some("MAY"@)) > force_order(Some(other))
            && force_order(Some(other)) > force_order(None),
        binding_force("MUST"@),
        binding_force("MUST NOT"@),
        other != "MUST"@ && other != "MUST NOT"@ ==> !binding_force(other),
{
    reveal_strlit("MUST");
    reveal_strlit("MUST NOT");
    reveal_strlit("SHOULD");
    reveal_strlit("SHOULD NOT");
    reveal_strlit("MAY");
    assert("MUST"@.len() == 4);
    assert("MUST NOT"@.len() == 8);
    assert("SHOULD"@.len() == 6);
    assert("SHOULD NOT"@.len() == 10);
    assert("MAY"@.len() == 3);
}

/// Of variants that are equally strict, the last is reported.
pub proof fn law_last_of_the_strictest_is_reported(variants: Seq<(Seq<char>, Json)>)
    requires
        variants.len() > 0,
    ensures
        exists|i: int|
            0 <= i < variants.len() && strictest(variants) == Some(#[trigger] variants[i])
                && forall|j: int|
                i < j < variants.len() ==> force_order((#[trigger] variants[j]).1.text_at("force"@))
                    < force_order(variants[i].1.text_at("force"@)),
    decreases variants.len(),
{
    let front = variants.drop_last();
    let n = variants.len() - 1;
    if front.len() == 0 {
        assert(strictest(front) is None);
        assert(strictest(variants) == Some(variants[n]));
    } else {
        law_last_of_the_strictest_is_reported(front);
        let i = choose|i: int|
            0 <= i < front.len() && strictest(front) == Some(#[trigger] front[i]) && forall|j: int|
                i < j < front.len() ==> force_order((#[trigger] front[j]).1.text_at("force"@))
                    < force_order(front[i].1.text_at("force"@));
        if strictest(variants) != Some(variants[n]) {
            assert(variants[i] == front[i]);
            assert forall|j: int| i < j < variants.len() implies force_order(
                (#[trigger] variants[j]).1.text_at("force"@),
            ) < force_order(variants[i].1.text_at("force"@)) by {
                if j < front.len() {
                    assert(front[j] == variants[j]);
                }
            }
            assert(strictest(variants) == Some(variants[i]));
        }
    }
}

/// Where several duties have one id, the last of them is the one compared.
pub proof fn law_last_duty_of_an_id_is_compared(list: Seq<Duty>, i: int)
    requires
        0 <= i < list.len(),
        forall|j: int| i < j < list.len() ==> (#[trigger] list[j]).id != list[i].id,
    ensures
        table::lookup(indexed(list), list[i].id) == Some(list[i]),
    decreases list.len(),
{
    let front = list.drop_last();
    lemma_indexed_ordered(front);
    table::lemma_put_lookup(indexed(front), list.last().id, list.last(), list[i].id);
    if i < front.len() {
        assert(front[i] == list[i]);
        assert forall|j: int| i < j < front.len() implies (#[trigger] front[j]).id
            != front[i].id by {
            assert(list[j].id != list[i].id);
        }
        law_last_duty_of_an_id_is_compared(front, i);
        assert(list[list.len() - 1].id != list[i].id);
    }
}

} // verus!
