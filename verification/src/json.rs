//! JSON documents.

use vstd::prelude::*;

use crate::outside;
use crate::table::Table;
use crate::table;
use crate::text;

verus! {

/// A number that is no integer of 64 bits, by its shortest decimal form.
#[derive(Debug, PartialEq, Eq)]
pub struct Decimal {
    pub(crate) digits: String,
}

/// One digit or more.
pub open spec fn digit_run(s: Seq<char>) -> bool {
    s.len() > 0 && forall|i: int| 0 <= i < s.len() ==> '0' <= #[trigger] s[i] <= '9'
}

/// The whole part of a JSON number.
pub open spec fn whole_part(s: Seq<char>) -> bool {
    let digits = if s.len() > 0 && s[0] == '-' {
        s.skip(1)
    } else {
        s
    };
    digit_run(digits) && (digits[0] != '0' || digits.len() == 1)
}

/// The fraction of a JSON number, if it has one.
pub open spec fn fraction_part(s: Seq<char>) -> bool {
    s.len() == 0 || s[0] == '.' && digit_run(s.skip(1))
}

/// The exponent of a JSON number, if it has one.
pub open spec fn exponent_part(s: Seq<char>) -> bool {
    s.len() == 0 || (s[0] == 'e' || s[0] == 'E') && (digit_run(s.skip(1)) || s.len() > 1 && (s[1]
        == '+' || s[1] == '-') && digit_run(s.skip(2)))
}

/// A JSON number.
pub open spec fn number_text(s: Seq<char>) -> bool {
    exists|i: int, j: int|
        0 <= i <= j <= s.len() && #[trigger] whole_part(s.take(i)) && #[trigger] fraction_part(
            s.subrange(i, j),
        ) && exponent_part(s.skip(j))
}

impl Decimal {
    /// The digits are a JSON number, as it is written for some double.
    #[verifier::type_invariant]
    spec fn in_form(self) -> bool {
        number_text(self.digits@) && outside::float_text(self.digits@)
    }

    pub closed spec fn view(&self) -> Seq<char> {
        self.digits@
    }
}

#[derive(Debug, PartialEq, Eq)]
pub enum Numeral {
    PosInt(u64),
    /// Always below zero.
    NegInt(i64),
    Float(Decimal),
}

/// A JSON document. An object's members are in key order, each key once.
#[derive(Debug, PartialEq, Eq)]
pub enum Doc {
    Null,
    Bool(bool),
    Number(Numeral),
    Text(String),
    Array(Vec<Doc>),
    Object(Table<Doc>),
}

/// What a document says.
pub enum Json {
    Null,
    Bool(bool),
    PosInt(u64),
    NegInt(i64),
    Float(Seq<char>),
    Text(Seq<char>),
    Array(Seq<Json>),
    Object(Seq<(Seq<char>, Json)>),
}

impl Table<Doc> {
    /// The members of an object, in key order.
    pub closed spec fn members(&self) -> Seq<(Seq<char>, Json)>
        decreases self,
    {
        Seq::new(
            self.entries@.len(),
            |i: int|
                if 0 <= i < self.entries@.len() {
                    (self.entries@[i].0@, self.entries@[i].1.json())
                } else {
                    (Seq::empty(), Json::Null)
                },
        )
    }
}

impl Doc {
    pub open spec fn json(&self) -> Json
        decreases self,
    {
        match self {
            Doc::Null => Json::Null,
            Doc::Bool(b) => Json::Bool(*b),
            Doc::Number(Numeral::PosInt(n)) => Json::PosInt(*n),
            Doc::Number(Numeral::NegInt(n)) => Json::NegInt(*n),
            Doc::Number(Numeral::Float(d)) => Json::Float(d@),
            Doc::Text(s) => Json::Text(s@),
            Doc::Array(items) => Json::Array(
                Seq::new(
                    items@.len(),
                    |i: int|
                        if 0 <= i < items@.len() {
                            items@[i].json()
                        } else {
                            Json::Null
                        },
                ),
            ),
            Doc::Object(table) => Json::Object(table.members()),
        }
    }
}

impl View for Doc {
    type V = Json;

    open spec fn view(&self) -> Json {
        self.json()
    }
}

/// What each document says.
pub open spec fn jsons(items: Seq<Doc>) -> Seq<Json> {
    items.map_values(|v: Doc| v@)
}

/// What each member says.
pub open spec fn deep(m: Seq<(Seq<char>, Doc)>) -> Seq<(Seq<char>, Json)> {
    m.map_values(|e: (Seq<char>, Doc)| (e.0, e.1@))
}

pub open spec fn opt_json(v: Option<&Doc>) -> Option<Json> {
    match v {
        Some(v) => Some(v@),
        None => None,
    }
}

pub open spec fn opt_owned(v: Option<Doc>) -> Option<Json> {
    match v {
        Some(v) => Some(v@),
        None => None,
    }
}

/// The two zeros of floating point, as they are written.
pub open spec fn zero(digits: Seq<char>) -> bool {
    digits == "0.0"@ || digits == "-0.0"@
}

fn is_zero(digits: &str) -> (yes: bool)
    ensures
        yes == zero(digits@),
{
    text::same_text(digits, "0.0") || text::same_text(digits, "-0.0")
}

/// Whether two documents say the same: value for value, where the two zeros of
/// floating point are one.
pub open spec fn agree(a: Json, b: Json) -> bool
    decreases a,
{
    match (a, b) {
        (Json::Float(x), Json::Float(y)) => x == y || (zero(x) && zero(y)),
        (Json::Array(x), Json::Array(y)) => x.len() == y.len() && forall|i: int|
            0 <= i < x.len() ==> agree(#[trigger] x[i], y[i]),
        (Json::Object(x), Json::Object(y)) => x.len() == y.len() && forall|i: int|
            #![trigger x[i]]
            0 <= i < x.len() ==> x[i].0 == y[i].0 && agree(x[i].1, y[i].1),
        _ => a == b,
    }
}

/// Whether both are absent or both say the same.
pub open spec fn agree_optional(a: Option<Json>, b: Option<Json>) -> bool {
    match (a, b) {
        (Some(x), Some(y)) => agree(x, y),
        _ => a == b,
    }
}

/// A document agrees with itself.
pub broadcast proof fn lemma_agree_self(a: Json)
    ensures
        #[trigger] agree(a, a),
    decreases a,
{
    match a {
        Json::Array(x) => {
            assert forall|i: int| 0 <= i < x.len() implies agree(#[trigger] x[i], x[i]) by {
                assert(decreases_to!(a => a->Array_0));
                assert(decreases_to!(a->Array_0 => a->Array_0[i]));
                lemma_agree_self(x[i]);
            }
        },
        Json::Object(x) => {
            assert forall|i: int| #![trigger x[i]] 0 <= i < x.len() implies agree(
                x[i].1,
                x[i].1,
            ) by {
                assert(decreases_to!(a => a->Object_0));
                assert(decreases_to!(a->Object_0 => a->Object_0[i]));
                assert(decreases_to!(a->Object_0[i] => a->Object_0[i].1));
                lemma_agree_self(x[i].1);
            }
        },
        _ => {},
    }
}

pub broadcast proof fn lemma_array_json(items: Vec<Doc>)
    ensures
        #[trigger] Doc::Array(items)@ == Json::Array(jsons(items@)),
{
    assert(Doc::Array(items)@->Array_0 =~= jsons(items@));
}

pub broadcast proof fn lemma_members(table: Table<Doc>)
    ensures
        #[trigger] table.members() == deep(table@),
{
    table.lemma_entries();
    assert(table.members() =~= deep(table@));
}

pub proof fn lemma_deep_lookup(m: Seq<(Seq<char>, Doc)>, key: Seq<char>)
    ensures
        table::lookup(deep(m), key) == opt_owned(table::lookup(m, key)),
    decreases m.len(),
{
    if m.len() > 0 {
        lemma_deep_lookup(m.drop_first(), key);
        assert(deep(m).drop_first() =~= deep(m.drop_first()));
    }
}

pub proof fn lemma_deep_put(m: Seq<(Seq<char>, Doc)>, key: Seq<char>, value: Doc)
    ensures
        deep(table::put(m, key, value)) == table::put(deep(m), key, value@),
    decreases m.len(),
{
    if m.len() > 0 {
        lemma_deep_put(m.drop_first(), key, value);
        assert(deep(m).drop_first() =~= deep(m.drop_first()));
    }
    assert(deep(table::put(m, key, value)) =~= table::put(deep(m), key, value@));
}

pub proof fn lemma_deep_drop(m: Seq<(Seq<char>, Doc)>, key: Seq<char>)
    ensures
        deep(table::drop_key(m, key)) == table::drop_key(deep(m), key),
    decreases m.len(),
{
    if m.len() > 0 {
        lemma_deep_drop(m.drop_first(), key);
        assert(deep(m).drop_first() =~= deep(m.drop_first()));
    }
    assert(deep(table::drop_key(m, key)) =~= table::drop_key(deep(m), key));
}

impl Json {
    /// The member of an object under `key`.
    pub open spec fn get(self, key: Seq<char>) -> Option<Json> {
        match self {
            Json::Object(m) => table::lookup(m, key),
            _ => None,
        }
    }

    /// The member under each key in turn.
    pub open spec fn get2(self, a: Seq<char>, b: Seq<char>) -> Option<Json> {
        match self.get(a) {
            Some(inner) => inner.get(b),
            None => None,
        }
    }

    pub open spec fn text(self) -> Option<Seq<char>> {
        match self {
            Json::Text(s) => Some(s),
            _ => None,
        }
    }

    pub open spec fn array(self) -> Option<Seq<Json>> {
        match self {
            Json::Array(items) => Some(items),
            _ => None,
        }
    }

    pub open spec fn object(self) -> Option<Seq<(Seq<char>, Json)>> {
        match self {
            Json::Object(m) => Some(m),
            _ => None,
        }
    }

    /// The number, where it is an integer that `u64` holds.
    pub open spec fn unsigned(self) -> Option<u64> {
        match self {
            Json::PosInt(n) => Some(n),
            Json::NegInt(n) => if n >= 0 {
                Some(n as u64)
            } else {
                None
            },
            _ => None,
        }
    }

    /// The number, where it is an integer that `i64` holds.
    pub open spec fn signed(self) -> Option<i64> {
        match self {
            Json::PosInt(n) => if n <= i64::MAX {
                Some(n as i64)
            } else {
                None
            },
            Json::NegInt(n) => Some(n),
            _ => None,
        }
    }

    /// The text of the member under `key`.
    pub open spec fn text_at(self, key: Seq<char>) -> Option<Seq<char>> {
        match self.get(key) {
            Some(v) => v.text(),
            None => None,
        }
    }

    pub open spec fn number_at(self, key: Seq<char>) -> Option<u64> {
        match self.get(key) {
            Some(v) => v.unsigned(),
            None => None,
        }
    }

    pub open spec fn signed_at(self, key: Seq<char>) -> Option<i64> {
        match self.get(key) {
            Some(v) => v.signed(),
            None => None,
        }
    }

    pub open spec fn array_at(self, key: Seq<char>) -> Option<Seq<Json>> {
        match self.get(key) {
            Some(v) => v.array(),
            None => None,
        }
    }

    pub open spec fn object_at(self, key: Seq<char>) -> Option<Seq<(Seq<char>, Json)>> {
        match self.get(key) {
            Some(v) => v.object(),
            None => None,
        }
    }

    /// The object with one more member.
    pub open spec fn with(self, key: Seq<char>, value: Json) -> Json {
        match self {
            Json::Object(m) => Json::Object(table::put(m, key, value)),
            _ => self,
        }
    }
}

/// The object without members.
pub open spec fn no_members() -> Json {
    Json::Object(Seq::empty())
}

/// The members of what may be an object.
pub open spec fn members_of(v: Option<Json>) -> Seq<(Seq<char>, Json)> {
    match v {
        Some(Json::Object(m)) => m,
        _ => Seq::empty(),
    }
}

/// The document, or `null` where there is none.
pub open spec fn or_null(v: Option<Json>) -> Json {
    match v {
        Some(v) => v,
        None => Json::Null,
    }
}

impl Table<Doc> {
    /// Binds `key`, as `insert` does.
    pub fn set(&mut self, key: &str, value: Doc)
        ensures
            final(self).members() == table::put(old(self).members(), key@, value@),
            final(self)@ == table::put(old(self)@, key@, value),
    {
        broadcast use lemma_members;

        proof {
            lemma_deep_put(self@, key@, value);
        }
        self.insert(key.to_owned(), value);
    }

    pub fn member(&self, key: &str) -> (found: Option<&Doc>)
        ensures
            opt_json(found) == table::lookup(self.members(), key@),
    {
        broadcast use lemma_members;

        proof {
            lemma_deep_lookup(self@, key@);
        }
        self.get(key)
    }

    /// A second copy of the table.
    pub fn duplicate(&self) -> (copy: Table<Doc>)
        ensures
            copy.members() == self.members(),
        decreases self,
    {
        broadcast use lemma_members;

        proof {
            use_type_invariant(self);
            self.lemma_in_order();
            self.lemma_entries();
        }
        let mut entries: Vec<(String, Doc)> = Vec::new();
        let mut i: usize = 0;
        while i < self.entries.len()
            invariant
                i <= self.entries@.len(),
                entries@.len() == i,
                forall|j: int|
                    0 <= j < i ==> (#[trigger] entries@[j]).0@ == self.entries@[j].0@
                        && entries@[j].1@ == self.entries@[j].1@,
            decreases self.entries@.len() - i,
        {
            let entry = &self.entries[i];
            assert(decreases_to!(self => self.entries@[i as int].1));
            let value = entry.1.duplicate();
            entries.push((entry.0.clone(), value));
            i += 1;
        }
        proof {
            let m = entries@.map_values(|e: (String, Doc)| (e.0@, e.1));
            assert forall|a: int, b: int| 0 <= a < b < m.len() implies text::text_lt(
                #[trigger] m[a].0,
                #[trigger] m[b].0,
            ) by {
                assert(entries@[a].0@ == self@[a].0);
                assert(entries@[b].0@ == self@[b].0);
            }
        }
        let copy = Table::from_entries(entries);
        proof {
            copy.lemma_entries();
        }
        assert(copy.members() =~= self.members());
        copy
    }

    /// Whether two tables hold the same members.
    pub fn same(&self, other: &Table<Doc>) -> (same: bool)
        ensures
            same == agree(Json::Object(self.members()), Json::Object(other.members())),
        decreases self,
    {
        broadcast use lemma_members;

        proof {
            self.lemma_entries();
            other.lemma_entries();
        }
        let ghost mine = self.members();
        let ghost theirs = other.members();
        if self.entries.len() != other.entries.len() {
            assert(mine.len() != theirs.len());
            return false;
        }
        let mut i: usize = 0;
        while i < self.entries.len()
            invariant
                i <= self.entries@.len(),
                self.entries@.len() == other.entries@.len(),
                mine == self.members(),
                theirs == other.members(),
                mine.len() == self.entries@.len(),
                theirs.len() == other.entries@.len(),
                forall|j: int|
                    #![trigger mine[j]]
                    0 <= j < i ==> mine[j].0 == theirs[j].0 && agree(mine[j].1, theirs[j].1),
            decreases self.entries@.len() - i,
        {
            assert(mine[i as int] == (self.entries@[i as int].0@, self.entries@[i as int].1@));
            assert(theirs[i as int] == (
                other.entries@[i as int].0@,
                other.entries@[i as int].1@,
            ));
            assert(decreases_to!(self => self.entries@[i as int].1));
            if self.entries[i].0 != other.entries[i].0 {
                return false;
            }
            if !self.entries[i].1.same(&other.entries[i].1) {
                return false;
            }
            i += 1;
        }
        true
    }
}

impl Doc {
    pub fn get(&self, key: &str) -> (found: Option<&Doc>)
        ensures
            opt_json(found) == self@.get(key@),
    {
        match self {
            Doc::Object(table) => table.member(key),
            _ => None,
        }
    }

    pub fn as_str(&self) -> (found: Option<&str>)
        ensures
            match found {
                Some(s) => self@.text() == Some(s@),
                None => self@.text() is None,
            },
    {
        match self {
            Doc::Text(s) => Some(s.as_str()),
            _ => None,
        }
    }

    pub fn as_array(&self) -> (found: Option<&Vec<Doc>>)
        ensures
            match found {
                Some(items) => self@.array() == Some(jsons(items@)),
                None => self@.array() is None,
            },
            found matches Some(items) ==> *self == Doc::Array(*items),
    {
        broadcast use lemma_array_json;

        match self {
            Doc::Array(items) => {
                assert(self@ == Doc::Array(*items)@);
                Some(items)
            },
            _ => None,
        }
    }

    pub fn as_object(&self) -> (found: Option<&Table<Doc>>)
        ensures
            match found {
                Some(table) => self@.object() == Some(table.members()),
                None => self@.object() is None,
            },
            found matches Some(table) ==> *self == Doc::Object(*table),
    {
        match self {
            Doc::Object(table) => Some(table),
            _ => None,
        }
    }

    pub fn as_u64(&self) -> (found: Option<u64>)
        ensures
            found == self@.unsigned(),
    {
        match self {
            Doc::Number(Numeral::PosInt(n)) => Some(*n),
            Doc::Number(Numeral::NegInt(n)) => if *n >= 0 {
                Some(*n as u64)
            } else {
                None
            },
            _ => None,
        }
    }

    pub fn as_i64(&self) -> (found: Option<i64>)
        ensures
            found == self@.signed(),
    {
        match self {
            Doc::Number(Numeral::PosInt(n)) => if *n <= i64::MAX as u64 {
                Some(*n as i64)
            } else {
                None
            },
            Doc::Number(Numeral::NegInt(n)) => Some(*n),
            _ => None,
        }
    }

    /// A second copy of the document.
    pub fn duplicate(&self) -> (copy: Doc)
        ensures
            copy@ == self@,
        decreases self,
    {
        broadcast use {lemma_array_json, lemma_members};

        match self {
            Doc::Null => Doc::Null,
            Doc::Bool(b) => Doc::Bool(*b),
            Doc::Number(Numeral::PosInt(n)) => Doc::Number(Numeral::PosInt(*n)),
            Doc::Number(Numeral::NegInt(n)) => Doc::Number(Numeral::NegInt(*n)),
            Doc::Number(Numeral::Float(d)) => {
                proof {
                    use_type_invariant(d);
                }
                Doc::Number(Numeral::Float(Decimal { digits: d.digits.clone() }))
            },
            Doc::Text(s) => Doc::Text(s.clone()),
            Doc::Array(items) => {
                let mut copies: Vec<Doc> = Vec::new();
                let mut i: usize = 0;
                while i < items.len()
                    invariant
                        i <= items@.len(),
                        copies@.len() == i,
                        *self == Doc::Array(*items),
                        forall|j: int| 0 <= j < i ==> (#[trigger] copies@[j])@ == items@[j]@,
                    decreases items@.len() - i,
                {
                    assert(decreases_to!(self->Array_0@ => items@[i as int]));
                    assert(decreases_to!(self => self->Array_0));
                    assert(decreases_to!(self => items@[i as int]));
                    let copy = items[i].duplicate();
                    copies.push(copy);
                    i += 1;
                }
                assert(jsons(copies@) =~= jsons(items@));
                assert(self@ == Doc::Array(*items)@);
                Doc::Array(copies)
            },
            Doc::Object(table) => Doc::Object(table.duplicate()),
        }
    }

    /// Whether two documents say the same.
    pub fn same(&self, other: &Doc) -> (same: bool)
        ensures
            same == agree(self@, other@),
        decreases self,
    {
        broadcast use {lemma_array_json, lemma_members};

        match (self, other) {
            (Doc::Null, Doc::Null) => true,
            (Doc::Bool(a), Doc::Bool(b)) => *a == *b,
            (Doc::Number(Numeral::PosInt(a)), Doc::Number(Numeral::PosInt(b))) => *a == *b,
            (Doc::Number(Numeral::NegInt(a)), Doc::Number(Numeral::NegInt(b))) => *a == *b,
            (Doc::Number(Numeral::Float(a)), Doc::Number(Numeral::Float(b))) => a.digits == b.digits
                || (is_zero(a.digits.as_str()) && is_zero(b.digits.as_str())),
            (Doc::Text(a), Doc::Text(b)) => *a == *b,
            (Doc::Array(a), Doc::Array(b)) => {
                assert(self@ == Doc::Array(*a)@);
                assert(other@ == Doc::Array(*b)@);
                if a.len() != b.len() {
                    assert(jsons(a@).len() != jsons(b@).len());
                    return false;
                }
                let mut i: usize = 0;
                while i < a.len()
                    invariant
                        i <= a@.len(),
                        a@.len() == b@.len(),
                        *self == Doc::Array(*a),
                        self@ == Json::Array(jsons(a@)),
                        other@ == Json::Array(jsons(b@)),
                        forall|j: int|
                            0 <= j < i ==> agree(#[trigger] jsons(a@)[j], jsons(b@)[j]),
                    decreases a@.len() - i,
                {
                    assert(decreases_to!(self => a@[i as int]));
                    assert(jsons(a@)[i as int] == a@[i as int]@);
                    assert(jsons(b@)[i as int] == b@[i as int]@);
                    if !a[i].same(&b[i]) {
                        return false;
                    }
                    i += 1;
                }
                true
            },
            (Doc::Object(a), Doc::Object(b)) => a.same(b),
            _ => false,
        }
    }
}

/// A JSON string.
pub fn text_value(s: &str) -> (v: Doc)
    ensures
        v@ == Json::Text(s@),
{
    Doc::Text(s.to_owned())
}

pub fn number_value(n: u64) -> (v: Doc)
    ensures
        v@ == Json::PosInt(n),
{
    Doc::Number(Numeral::PosInt(n))
}

/// A copy of what may be there.
pub fn duplicate_of(found: Option<&Doc>) -> (copy: Option<Doc>)
    ensures
        opt_owned(copy) == opt_json(found),
{
    match found {
        Some(v) => Some(v.duplicate()),
        None => None,
    }
}

/// A copy of what may be there, or `null`.
pub fn value_or_null(found: Option<&Doc>) -> (v: Doc)
    ensures
        v@ == or_null(opt_json(found)),
{
    match found {
        Some(v) => v.duplicate(),
        None => Doc::Null,
    }
}

/// Whether both are absent or both say the same.
pub fn same_optional(a: Option<&Doc>, b: Option<&Doc>) -> (same: bool)
    ensures
        same == agree_optional(opt_json(a), opt_json(b)),
{
    match (a, b) {
        (Some(a), Some(b)) => a.same(b),
        (None, None) => true,
        _ => false,
    }
}

/// The text of the member under `key`.
pub fn text_member<'a>(v: &'a Doc, key: &str) -> (found: Option<&'a str>)
    ensures
        match found {
            Some(s) => v@.text_at(key@) == Some(s@),
            None => v@.text_at(key@) is None,
        },
{
    match v.get(key) {
        Some(member) => member.as_str(),
        None => None,
    }
}

pub fn number_member(v: &Doc, key: &str) -> (found: Option<u64>)
    ensures
        found == v@.number_at(key@),
{
    match v.get(key) {
        Some(v) => v.as_u64(),
        None => None,
    }
}

pub fn signed_member(v: &Doc, key: &str) -> (found: Option<i64>)
    ensures
        found == v@.signed_at(key@),
{
    match v.get(key) {
        Some(v) => v.as_i64(),
        None => None,
    }
}

pub fn array_member<'a>(v: &'a Doc, key: &str) -> (found: Option<&'a Vec<Doc>>)
    ensures
        match found {
            Some(items) => v@.array_at(key@) == Some(jsons(items@)),
            None => v@.array_at(key@) is None,
        },
{
    match v.get(key) {
        Some(member) => member.as_array(),
        None => None,
    }
}

pub fn object_member<'a>(v: &'a Doc, key: &str) -> (found: Option<&'a Table<Doc>>)
    ensures
        match found {
            Some(table) => v@.object_at(key@) == Some(table.members()),
            None => v@.object_at(key@) is None,
        },
{
    match v.get(key) {
        Some(member) => member.as_object(),
        None => None,
    }
}

/// The object in a value, if there is one.
pub fn members_in(v: Option<&Doc>) -> (found: Option<&Table<Doc>>)
    ensures
        match found {
            Some(t) => members_of(opt_json(v)) == t.members(),
            None => members_of(opt_json(v)) == Seq::<(Seq<char>, Json)>::empty(),
        },
{
    match v {
        Some(v) => v.as_object(),
        None => None,
    }
}

/// The value at a path of member names.
pub open spec fn at(v: Json, path: Seq<Seq<char>>) -> Option<Json>
    decreases path.len(),
{
    if path.len() == 0 {
        Some(v)
    } else {
        match at(v, path.drop_last()) {
            Some(inner) => inner.get(path.last()),
            None => None,
        }
    }
}

pub open spec fn strs(path: Seq<&str>) -> Seq<Seq<char>> {
    path.map_values(|s: &str| s@)
}

/// Values under the names they stand for, one for one.
pub open spec fn zipped(names: Seq<Seq<char>>, items: Seq<Json>) -> Seq<(Seq<char>, Json)>
    decreases names.len(),
{
    if names.len() == 0 || items.len() == 0 {
        Seq::empty()
    } else {
        table::put(zipped(names.drop_last(), items.drop_last()), names.last(), items.last())
    }
}

/// A record's members, also where it is written as the list of its values.
pub open spec fn named(v: Json, names: Seq<Seq<char>>) -> Json {
    match v {
        Json::Array(items) => if items.len() == names.len() {
            Json::Object(zipped(names, items))
        } else {
            v
        },
        _ => v,
    }
}

/// The members of a record that is written as the list of its values.
pub fn name_values(v: &Doc, names: &[&str]) -> (r: Option<Doc>)
    ensures
        match r {
            Some(record) => record@ == named(v@, strs(names@)) && record@ is Object,
            None => named(v@, strs(names@)) == v@,
        },
{
    broadcast use {lemma_array_json, lemma_members};

    match v {
        Doc::Array(items) => {
            let ghost values = jsons(items@);
            let ghost all = strs(names@);
            assert(v@ == Json::Array(values));
            if items.len() != names.len() {
                return None;
            }
            let mut members: Table<Doc> = Table::new();
            let mut i: usize = 0;
            assert(members.members() =~= zipped(all.take(0), values.take(0)));
            while i < items.len()
                invariant
                    i <= items@.len(),
                    items@.len() == names@.len(),
                    values == jsons(items@),
                    all == strs(names@),
                    members.members() == zipped(all.take(i as int), values.take(i as int)),
                decreases items@.len() - i,
            {
                proof {
                    assert(all.take(i + 1).drop_last() =~= all.take(i as int));
                    assert(values.take(i + 1).drop_last() =~= values.take(i as int));
                    assert(all.take(i + 1).last() == names@[i as int]@);
                    assert(values.take(i + 1).last() == items@[i as int]@);
                }
                members.set(names[i], items[i].duplicate());
                i += 1;
            }
            assert(all.take(all.len() as int) =~= all);
            assert(values.take(values.len() as int) =~= values);
            Some(Doc::Object(members))
        },
        _ => None,
    }
}

pub fn value_at<'a>(v: &'a Doc, path: &[&str]) -> (found: Option<&'a Doc>)
    ensures
        opt_json(found) == at(v@, strs(path@)),
{
    let mut here = v;
    let ghost all = strs(path@);
    let mut i: usize = 0;
    while i < path.len()
        invariant
            i <= path@.len(),
            all == strs(path@),
            at(v@, all.take(i as int)) == Some(here@),
        decreases path@.len() - i,
    {
        proof {
            assert(all.take(i + 1).drop_last() =~= all.take(i as int));
            assert(all.take(i + 1).last() == path@[i as int]@);
        }
        match here.get(path[i]) {
            Some(inner) => {
                here = inner;
            },
            None => {
                proof {
                    lemma_at_nothing(v@, all, i + 1);
                }
                return None;
            },
        }
        i += 1;
    }
    assert(all.take(all.len() as int) =~= all);
    Some(here)
}

proof fn lemma_at_nothing(v: Json, path: Seq<Seq<char>>, n: int)
    requires
        0 <= n <= path.len(),
        at(v, path.take(n)) is None,
    ensures
        at(v, path) is None,
    decreases path.len() - n,
{
    if n < path.len() {
        assert(path.take(n + 1).drop_last() =~= path.take(n));
        lemma_at_nothing(v, path, n + 1);
    } else {
        assert(path.take(n) =~= path);
    }
}

/// The items of the array under a key; none where there is no such array.
pub open spec fn items_of(v: Json, key: Seq<char>) -> Seq<Json> {
    match v.array_at(key) {
        Some(items) => items,
        None => Seq::empty(),
    }
}

pub proof fn lemma_lookup_smaller(m: Seq<(Seq<char>, Json)>, key: Seq<char>)
    ensures
        table::lookup(m, key) matches Some(v) ==> decreases_to!(m => v),
{
    let i = table::lemma_lookup_index(m, key);
    if table::lookup(m, key) is Some {
        assert(decreases_to!(m => m[i]));
        assert(decreases_to!(m[i] => m[i].1));
    }
}

pub proof fn lemma_item_smaller(v: Json, key: Seq<char>, i: int)
    requires
        0 <= i < items_of(v, key).len(),
    ensures
        decreases_to!(v => items_of(v, key)[i]),
{
    let m = v->Object_0;
    lemma_lookup_smaller(m, key);
    let list = table::lookup(m, key)->Some_0;
    assert(decreases_to!(v => m));
    assert(decreases_to!(list => list->Array_0));
    assert(decreases_to!(list->Array_0 => list->Array_0[i]));
}

/// Members stay in order, and the new one is found under its key.
pub proof fn lemma_with(v: Json, key: Seq<char>, value: Json)
    requires
        v matches Json::Object(m) && table::ordered(m),
    ensures
        v.with(key, value) matches Json::Object(m) && table::ordered(m),
        v.with(key, value).get(key) == Some(value),
        forall|other: Seq<char>| other != key ==> #[trigger] v.with(key, value).get(other) == v.get(other),
{
    let m = v->Object_0;
    table::lemma_put_ordered(m, key, value);
    assert forall|other: Seq<char>| #[trigger] v.with(key, value).get(other) == (if other == key {
        Some(value)
    } else {
        v.get(other)
    }) by {
        table::lemma_put_lookup(m, key, value, other);
    }
}

/// The document with a text under a key, where there is one.
pub open spec fn with_optional(v: Json, key: Seq<char>, s: Option<Seq<char>>) -> Json {
    match s {
        Some(s) => v.with(key, Json::Text(s)),
        None => v,
    }
}

pub fn set_optional(members: &mut Table<Doc>, key: &str, value: &Option<String>)
    ensures
        Json::Object(final(members).members()) == with_optional(
            Json::Object(old(members).members()),
            key@,
            text::opt_text(*value),
        ),
{
    match value {
        Some(s) => {
            members.set(key, text_value(s.as_str()));
        },
        None => {},
    }
}

/// Following a path is taking its first step and then the others.
pub proof fn lemma_at_first(v: Json, path: Seq<Seq<char>>)
    requires
        path.len() > 0,
    ensures
        at(v, path) == (match v.get(path[0]) {
            Some(inner) => at(inner, path.drop_first()),
            None => None,
        }),
    decreases path.len(),
{
    if path.len() == 1 {
        assert(path.drop_last() =~= Seq::<Seq<char>>::empty());
        assert(path.drop_first() =~= Seq::<Seq<char>>::empty());
        assert(at(v, path.drop_last()) == Some(v));
    } else {
        lemma_at_first(v, path.drop_last());
        assert(path.drop_last().drop_first() =~= path.drop_first().drop_last());
        assert(path.drop_last()[0] == path[0]);
        assert(path.drop_first().last() == path.last());
    }
}

/// Agreement goes both ways, and is equality for all but numbers with a fraction.
pub proof fn law_agreement_goes_both_ways(a: Json, b: Json)
    requires
        agree(a, b),
    ensures
        agree(b, a),
        a matches Json::Text(s) ==> b == Json::Text(s),
        a matches Json::PosInt(n) ==> b == Json::PosInt(n),
        a matches Json::NegInt(n) ==> b == Json::NegInt(n),
        a matches Json::Bool(x) ==> b == Json::Bool(x),
        a is Null <==> b is Null,
        a is Array <==> b is Array,
        a is Object <==> b is Object,
        a is Float <==> b is Float,
    decreases a,
{
    match (a, b) {
        (Json::Array(x), Json::Array(y)) => {
            assert forall|i: int| 0 <= i < y.len() implies agree(#[trigger] y[i], x[i]) by {
                assert(agree(x[i], y[i]));
                law_agreement_goes_both_ways(x[i], y[i]);
            }
        },
        (Json::Object(x), Json::Object(y)) => {
            assert forall|i: int| #![trigger y[i]] 0 <= i < y.len() implies y[i].0 == x[i].0
                && agree(y[i].1, x[i].1) by {
                assert(x[i].0 == y[i].0);
                law_agreement_goes_both_ways(x[i].1, y[i].1);
            }
        },
        _ => {},
    }
}

/// A whole number reads as itself, unsigned where it is not negative and signed
/// where it fits; nothing else reads as a number.
pub proof fn law_numbers_read_as_themselves(v: Json)
    ensures
        v matches Json::PosInt(n) ==> v.unsigned() == Some(n),
        v matches Json::PosInt(n) ==> (v.signed() matches Some(m) ==> m == n),
        v matches Json::PosInt(n) ==> (v.signed() is Some <==> n <= i64::MAX),
        v matches Json::NegInt(n) ==> v.signed() == Some(n),
        v matches Json::NegInt(n) ==> (n < 0 ==> v.unsigned() is None),
        !(v is PosInt) && !(v is NegInt) ==> v.unsigned() is None && v.signed() is None,
{
}

/// Values listed in the order of some names read as an object with those names.
pub proof fn law_listed_values_take_their_names(names: Seq<Seq<char>>, items: Seq<Json>, i: int)
    requires
        names.len() == items.len(),
        0 <= i < names.len(),
        forall|j: int| i < j < names.len() ==> #[trigger] names[j] != names[i],
    ensures
        named(Json::Array(items), names).get(names[i]) == Some(items[i]),
    decreases names.len(),
{
    let before = names.drop_last();
    let others = items.drop_last();
    lemma_zipped_ordered(before, others);
    table::lemma_put_lookup(zipped(before, others), names.last(), items.last(), names[i]);
    if i < before.len() {
        assert(before[i] == names[i]);
        assert forall|j: int| i < j < before.len() implies #[trigger] before[j] != before[i] by {
            assert(names[j] != names[i]);
        }
        law_listed_values_take_their_names(before, others, i);
        assert(names[names.len() - 1] != names[i]);
    }
}

proof fn lemma_zipped_ordered(names: Seq<Seq<char>>, items: Seq<Json>)
    ensures
        table::ordered(zipped(names, items)),
    decreases names.len(),
{
    if names.len() > 0 && items.len() > 0 {
        lemma_zipped_ordered(names.drop_last(), items.drop_last());
        table::lemma_put_ordered(
            zipped(names.drop_last(), items.drop_last()),
            names.last(),
            items.last(),
        );
    }
}

} // verus!
