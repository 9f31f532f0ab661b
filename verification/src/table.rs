//! A map from text to values, kept in key order.

use vstd::prelude::*;

use crate::text;

verus! {

/// The keys of a map, in the order they are walked.
pub open spec fn keys<V>(m: Seq<(Seq<char>, V)>) -> Seq<Seq<char>> {
    m.map_values(|e: (Seq<char>, V)| e.0)
}

/// Keys rise strictly: none occurs twice, and the walk goes in key order.
pub open spec fn ordered<V>(m: Seq<(Seq<char>, V)>) -> bool {
    forall|i: int, j: int| 0 <= i < j < m.len() ==> text::text_lt(#[trigger] m[i].0, #[trigger] m[j].0)
}

/// The value under a key.
pub open spec fn lookup<V>(m: Seq<(Seq<char>, V)>, key: Seq<char>) -> Option<V>
    decreases m.len(),
{
    if m.len() == 0 {
        None
    } else if m[0].0 == key {
        Some(m[0].1)
    } else {
        lookup(m.drop_first(), key)
    }
}

/// The map with `key` bound to `value`, at its place in key order.
pub open spec fn put<V>(m: Seq<(Seq<char>, V)>, key: Seq<char>, value: V) -> Seq<(Seq<char>, V)>
    decreases m.len(),
{
    if m.len() == 0 {
        seq![(key, value)]
    } else if m[0].0 == key {
        seq![(key, value)] + m.drop_first()
    } else if text::text_lt(key, m[0].0) {
        seq![(key, value)] + m
    } else {
        seq![m[0]] + put(m.drop_first(), key, value)
    }
}

/// The map without `key`.
pub open spec fn drop_key<V>(m: Seq<(Seq<char>, V)>, key: Seq<char>) -> Seq<(Seq<char>, V)>
    decreases m.len(),
{
    if m.len() == 0 {
        m
    } else if m[0].0 == key {
        m.drop_first()
    } else {
        seq![m[0]] + drop_key(m.drop_first(), key)
    }
}

pub proof fn lemma_lookup_at<V>(m: Seq<(Seq<char>, V)>, key: Seq<char>, i: int)
    requires
        0 <= i <= m.len(),
        forall|j: int| 0 <= j < i ==> (#[trigger] m[j]).0 != key,
    ensures
        i < m.len() && m[i].0 == key ==> lookup(m, key) == Some(m[i].1),
        i == m.len() ==> lookup(m, key) is None,
    decreases m.len(),
{
    if m.len() > 0 && i > 0 {
        assert(m[0].0 != key);
        assert forall|j: int| 0 <= j < i - 1 implies (#[trigger] m.drop_first()[j]).0 != key by {
            assert(m[j + 1].0 != key);
        }
        lemma_lookup_at(m.drop_first(), key, i - 1);
    }
}

pub proof fn lemma_lookup_index<V>(m: Seq<(Seq<char>, V)>, key: Seq<char>) -> (i: int)
    ensures
        match lookup(m, key) {
            Some(v) => 0 <= i < m.len() && m[i].0 == key && m[i].1 == v && forall|j: int|
                0 <= j < i ==> (#[trigger] m[j]).0 != key,
            None => i == m.len() && forall|j: int| 0 <= j < i ==> (#[trigger] m[j]).0 != key,
        },
    decreases m.len(),
{
    if m.len() == 0 {
        0
    } else if m[0].0 == key {
        0
    } else {
        let i = lemma_lookup_index(m.drop_first(), key);
        assert forall|j: int| 0 <= j < i + 1 implies (#[trigger] m[j]).0 != key by {
            if j > 0 {
                assert(m.drop_first()[j - 1].0 != key);
            }
        }
        i + 1
    }
}

/// In key order, an entry is found under its own key.
pub proof fn lemma_lookup_entry<V>(m: Seq<(Seq<char>, V)>, i: int)
    requires
        ordered(m),
        0 <= i < m.len(),
    ensures
        lookup(m, m[i].0) == Some(m[i].1),
{
    assert forall|j: int| 0 <= j < i implies (#[trigger] m[j]).0 != m[i].0 by {
        text::lemma_text_lt_irreflexive(m[i].0);
    }
    lemma_lookup_at(m, m[i].0, i);
}

/// Where the keys before `i` are smaller and the keys from `i` on larger, the
/// new entry stands at `i`.
pub proof fn lemma_put_at<V>(m: Seq<(Seq<char>, V)>, key: Seq<char>, value: V, i: int)
    requires
        0 <= i <= m.len(),
        forall|j: int| 0 <= j < i ==> text::text_lt((#[trigger] m[j]).0, key),
        i < m.len() ==> m[i].0 == key || text::text_lt(key, m[i].0),
    ensures
        put(m, key, value) == (if i < m.len() && m[i].0 == key {
            m.update(i, (key, value))
        } else {
            m.insert(i, (key, value))
        }),
    decreases m.len(),
{
    text::lemma_text_lt_irreflexive(key);
    if i == 0 {
        if m.len() == 0 {
            assert(put(m, key, value) =~= m.insert(0, (key, value)));
        } else if m[0].0 == key {
            assert(put(m, key, value) =~= m.update(0, (key, value)));
        } else {
            assert(put(m, key, value) =~= m.insert(0, (key, value)));
        }
    } else {
        let rest = m.drop_first();
        assert(text::text_lt(m[0].0, key));
        if text::text_lt(key, m[0].0) {
            text::lemma_text_lt_transitive(key, m[0].0, key);
        }
        assert forall|j: int| 0 <= j < i - 1 implies text::text_lt((#[trigger] rest[j]).0, key) by {
            assert(rest[j] == m[j + 1]);
        }
        lemma_put_at(rest, key, value, i - 1);
        if i < m.len() && m[i].0 == key {
            assert(seq![m[0]] + rest.update(i - 1, (key, value)) =~= m.update(i, (key, value)));
        } else {
            assert(seq![m[0]] + rest.insert(i - 1, (key, value)) =~= m.insert(i, (key, value)));
        }
    }
}

/// Binding a key keeps the map in key order.
pub proof fn lemma_put_ordered<V>(m: Seq<(Seq<char>, V)>, key: Seq<char>, value: V)
    requires
        ordered(m),
    ensures
        ordered(put(m, key, value)),
    decreases m.len(),
{
    if m.len() > 0 {
        let rest = m.drop_first();
        assert forall|i: int, j: int| 0 <= i < j < rest.len() implies text::text_lt(
            #[trigger] rest[i].0,
            #[trigger] rest[j].0,
        ) by {
            assert(text::text_lt(m[i + 1].0, m[j + 1].0));
        }
        if m[0].0 == key {
            let n = put(m, key, value);
            assert forall|i: int, j: int| 0 <= i < j < n.len() implies text::text_lt(
                #[trigger] n[i].0,
                #[trigger] n[j].0,
            ) by {
                assert(n[j] == m[j]);
                assert(n[i].0 == m[i].0);
            }
        } else if text::text_lt(key, m[0].0) {
            let n = put(m, key, value);
            assert forall|i: int, j: int| 0 <= i < j < n.len() implies text::text_lt(
                #[trigger] n[i].0,
                #[trigger] n[j].0,
            ) by {
                assert(n[j] == m[j - 1]);
                if i == 0 {
                    if j > 1 {
                        assert(text::text_lt(m[0].0, m[j - 1].0));
                        text::lemma_text_lt_transitive(key, m[0].0, m[j - 1].0);
                    }
                } else {
                    assert(n[i] == m[i - 1]);
                }
            }
        } else {
            text::lemma_text_lt_total(key, m[0].0);
            lemma_put_ordered(rest, key, value);
            let tail = put(rest, key, value);
            let n = put(m, key, value);
            lemma_put_keys(rest, key, value);
            assert forall|i: int, j: int| 0 <= i < j < n.len() implies text::text_lt(
                #[trigger] n[i].0,
                #[trigger] n[j].0,
            ) by {
                assert(n[j] == tail[j - 1]);
                if i > 0 {
                    assert(n[i] == tail[i - 1]);
                } else {
                    assert(n[0] == m[0]);
                    if tail[j - 1].0 != key {
                        let k = choose|k: int| 0 <= k < rest.len() && rest[k].0 == tail[j - 1].0;
                        assert(text::text_lt(m[0].0, m[k + 1].0));
                    }
                }
            }
        }
    }
}

/// The keys after binding: those before, and the one bound.
pub proof fn lemma_put_keys<V>(m: Seq<(Seq<char>, V)>, key: Seq<char>, value: V)
    ensures
        forall|j: int|
            #![trigger put(m, key, value)[j]]
            0 <= j < put(m, key, value).len() ==> put(m, key, value)[j].0 == key || exists|k: int|
                0 <= k < m.len() && m[k].0 == put(m, key, value)[j].0,
    decreases m.len(),
{
    if m.len() > 0 {
        let n = put(m, key, value);
        let rest = m.drop_first();
        lemma_put_keys(rest, key, value);
        assert forall|j: int| #![trigger n[j]] 0 <= j < n.len() implies n[j].0 == key || exists|k: int|
            0 <= k < m.len() && m[k].0 == n[j].0 by {
            if m[0].0 == key {
                if j > 0 {
                    assert(n[j] == m[j]);
                }
            } else if text::text_lt(key, m[0].0) {
                if j > 0 {
                    assert(n[j] == m[j - 1]);
                }
            } else if j > 0 {
                let tail = put(rest, key, value);
                assert(n[j] == tail[j - 1]);
                if n[j].0 != key {
                    let k = choose|k: int| 0 <= k < rest.len() && rest[k].0 == tail[j - 1].0;
                    assert(m[k + 1].0 == n[j].0);
                }
            } else {
                assert(n[0] == m[0]);
            }
        }
    }
}

/// What is found after a key was bound.
pub proof fn lemma_put_lookup<V>(m: Seq<(Seq<char>, V)>, key: Seq<char>, value: V, other: Seq<char>)
    requires
        ordered(m),
    ensures
        lookup(put(m, key, value), other) == (if other == key {
            Some(value)
        } else {
            lookup(m, other)
        }),
    decreases m.len(),
{
    reveal_with_fuel(lookup, 2);
    let n = put(m, key, value);
    if m.len() == 0 {
        assert(n.drop_first() =~= Seq::<(Seq<char>, V)>::empty());
    } else {
        let rest = m.drop_first();
        assert forall|i: int, j: int| 0 <= i < j < rest.len() implies text::text_lt(
            #[trigger] rest[i].0,
            #[trigger] rest[j].0,
        ) by {
            assert(text::text_lt(m[i + 1].0, m[j + 1].0));
        }
        if m[0].0 == key {
            assert(n.drop_first() =~= rest);
        } else if text::text_lt(key, m[0].0) {
            assert(n.drop_first() =~= m);
        } else {
            lemma_put_lookup(rest, key, value, other);
            assert(n.drop_first() =~= put(rest, key, value));
        }
    }
}

pub proof fn lemma_drop_key_at<V>(m: Seq<(Seq<char>, V)>, key: Seq<char>, i: int)
    requires
        0 <= i <= m.len(),
        forall|j: int| 0 <= j < i ==> (#[trigger] m[j]).0 != key,
        i < m.len() ==> m[i].0 == key,
    ensures
        drop_key(m, key) == (if i < m.len() {
            m.remove(i)
        } else {
            m
        }),
    decreases m.len(),
{
    if m.len() > 0 {
        let rest = m.drop_first();
        if i == 0 {
            assert(m.remove(0) =~= rest);
        } else {
            assert(m[0].0 != key);
            assert forall|j: int| 0 <= j < i - 1 implies (#[trigger] rest[j]).0 != key by {
                assert(rest[j] == m[j + 1]);
            }
            lemma_drop_key_at(rest, key, i - 1);
            if i < m.len() {
                assert(seq![m[0]] + rest.remove(i - 1) =~= m.remove(i));
            } else {
                assert(seq![m[0]] + rest =~= m);
            }
        }
    }
}

/// A map from text to `V`. No key occurs twice, and the entries are walked in
/// key order.
#[derive(Debug, PartialEq, Eq)]
pub struct Table<V> {
    pub(crate) entries: Vec<(String, V)>,
}

impl<V> Table<V> {
    /// The entries in key order.
    pub closed spec fn view(&self) -> Seq<(Seq<char>, V)> {
        self.entries@.map_values(|e: (String, V)| (e.0@, e.1))
    }

    #[verifier::type_invariant]
    pub closed spec fn in_order(&self) -> bool {
        ordered(self@)
    }

    /// What the type guarantees of every table.
    pub proof fn lemma_in_order(&self)
        requires
            self.in_order(),
        ensures
            ordered(self@),
    {
    }

    pub(crate) proof fn lemma_entries(&self)
        ensures
            self@ == self.entries@.map_values(|e: (String, V)| (e.0@, e.1)),
    {
    }

    pub fn new() -> (table: Self)
        ensures
            table@ == Seq::<(Seq<char>, V)>::empty(),
    {
        let table = Table { entries: Vec::new() };
        assert(table@ =~= Seq::<(Seq<char>, V)>::empty());
        table
    }

    pub(crate) fn from_entries(entries: Vec<(String, V)>) -> (table: Self)
        requires
            ordered(entries@.map_values(|e: (String, V)| (e.0@, e.1))),
        ensures
            table@ == entries@.map_values(|e: (String, V)| (e.0@, e.1)),
            table.entries == entries,
    {
        Table { entries }
    }

    pub fn len(&self) -> (n: usize)
        ensures
            n == self@.len(),
    {
        self.entries.len()
    }

    pub fn key(&self, i: usize) -> (key: &str)
        requires
            i < self@.len(),
        ensures
            key@ == self@[i as int].0,
    {
        self.entries[i].0.as_str()
    }

    pub fn value(&self, i: usize) -> (value: &V)
        requires
            i < self@.len(),
        ensures
            *value == self@[i as int].1,
    {
        &self.entries[i].1
    }

    pub fn get(&self, key: &str) -> (found: Option<&V>)
        ensures
            match found {
                Some(value) => lookup(self@, key@) == Some(*value),
                None => lookup(self@, key@) is None,
            },
    {
        let mut i: usize = 0;
        while i < self.entries.len()
            invariant
                i <= self@.len(),
                self@.len() == self.entries@.len(),
                forall|j: int| 0 <= j < i ==> (#[trigger] self@[j]).0 != key@,
            decreases self@.len() - i,
        {
            if text::same_text(self.entries[i].0.as_str(), key) {
                proof {
                    lemma_lookup_at(self@, key@, i as int);
                }
                return Some(&self.entries[i].1);
            }
            i += 1;
        }
        proof {
            lemma_lookup_at(self@, key@, i as int);
        }
        None
    }

    pub fn contains_key(&self, key: &str) -> (found: bool)
        ensures
            found == (lookup(self@, key@) is Some),
    {
        self.get(key).is_some()
    }

    pub fn insert(&mut self, key: String, value: V)
        ensures
            final(self)@ == put(old(self)@, key@, value),
    {
        proof {
            use_type_invariant(&*self);
        }
        let mut entries: Vec<(String, V)> = Vec::new();
        std::mem::swap(&mut entries, &mut self.entries);
        let ghost m = entries@.map_values(|e: (String, V)| (e.0@, e.1));
        let ghost k = key@;
        let mut i: usize = 0;
        while i < entries.len() && text::text_before(entries[i].0.as_str(), key.as_str())
            invariant
                m == entries@.map_values(|e: (String, V)| (e.0@, e.1)),
                k == key@,
                i <= entries@.len(),
                forall|j: int| 0 <= j < i ==> text::text_lt((#[trigger] m[j]).0, k),
            decreases entries@.len() - i,
        {
            assert(m[i as int].0 == entries@[i as int].0@);
            i += 1;
        }
        proof {
            if i < m.len() {
                assert(m[i as int].0 == entries@[i as int].0@);
                text::lemma_text_lt_total(m[i as int].0, k);
            }
            lemma_put_at(m, k, value, i as int);
            lemma_put_ordered(m, k, value);
        }
        if i < entries.len() && entries[i].0 == key {
            entries.set(i, (key, value));
        } else {
            entries.insert(i, (key, value));
        }
        assert(entries@.map_values(|e: (String, V)| (e.0@, e.1)) =~= put(m, k, value));
        self.entries = entries;
    }

    pub fn remove(&mut self, key: &str)
        ensures
            final(self)@ == drop_key(old(self)@, key@),
    {
        proof {
            use_type_invariant(&*self);
        }
        let mut entries: Vec<(String, V)> = Vec::new();
        std::mem::swap(&mut entries, &mut self.entries);
        let ghost m = entries@.map_values(|e: (String, V)| (e.0@, e.1));
        let mut i: usize = 0;
        while i < entries.len() && !text::same_text(entries[i].0.as_str(), key)
            invariant
                m == entries@.map_values(|e: (String, V)| (e.0@, e.1)),
                i <= entries@.len(),
                forall|j: int| 0 <= j < i ==> (#[trigger] m[j]).0 != key@,
            decreases entries@.len() - i,
        {
            assert(m[i as int].0 == entries@[i as int].0@);
            i += 1;
        }
        proof {
            if i < m.len() {
                assert(m[i as int].0 == entries@[i as int].0@);
            }
            lemma_drop_key_at(m, key@, i as int);
        }
        if i < entries.len() {
            entries.remove(i);
            assert(entries@.map_values(|e: (String, V)| (e.0@, e.1)) =~= m.remove(i as int));
            assert forall|a: int, b: int| 0 <= a < b < m.remove(i as int).len() implies text::text_lt(
                #[trigger] m.remove(i as int)[a].0,
                #[trigger] m.remove(i as int)[b].0,
            ) by {
                let x = if a < i { a } else { a + 1 };
                let y = if b < i { b } else { b + 1 };
                assert(text::text_lt(m[x].0, m[y].0));
            }
        }
        self.entries = entries;
    }
}

/// The map with each value carried through `f`.
pub open spec fn mapped<V, W>(m: Seq<(Seq<char>, V)>, f: spec_fn(V) -> W) -> Seq<(Seq<char>, W)> {
    m.map_values(|e: (Seq<char>, V)| (e.0, f(e.1)))
}

pub proof fn lemma_mapped_put<V, W>(
    m: Seq<(Seq<char>, V)>,
    key: Seq<char>,
    value: V,
    f: spec_fn(V) -> W,
)
    ensures
        mapped(put(m, key, value), f) == put(mapped(m, f), key, f(value)),
    decreases m.len(),
{
    if m.len() > 0 {
        lemma_mapped_put(m.drop_first(), key, value, f);
        assert(mapped(m.drop_first(), f) =~= mapped(m, f).drop_first());
    }
    assert(mapped(put(m, key, value), f) =~= put(mapped(m, f), key, f(value)));
}

pub proof fn lemma_mapped_lookup<V, W>(m: Seq<(Seq<char>, V)>, key: Seq<char>, f: spec_fn(V) -> W)
    ensures
        lookup(mapped(m, f), key) == (match lookup(m, key) {
            Some(v) => Some(f(v)),
            None => None::<W>,
        }),
    decreases m.len(),
{
    if m.len() > 0 {
        lemma_mapped_lookup(m.drop_first(), key, f);
        assert(mapped(m.drop_first(), f) =~= mapped(m, f).drop_first());
    }
}

pub proof fn lemma_mapped_ordered<V, W>(m: Seq<(Seq<char>, V)>, f: spec_fn(V) -> W)
    ensures
        ordered(mapped(m, f)) == ordered(m),
{
    let n = mapped(m, f);
    assert(forall|i: int| 0 <= i < m.len() ==> (#[trigger] m[i]).0 == n[i].0);
    assert(forall|i: int| 0 <= i < m.len() ==> (#[trigger] n[i]).0 == m[i].0);
}

/// Binding a key adds its entry and keeps others.
pub proof fn lemma_put_entries<V>(m: Seq<(Seq<char>, V)>, key: Seq<char>, value: V)
    ensures
        forall|j: int|
            #![trigger put(m, key, value)[j]]
            0 <= j < put(m, key, value).len() ==> put(m, key, value)[j] == (key, value) || exists|
                k: int,
            |
                0 <= k < m.len() && #[trigger] m[k] == put(m, key, value)[j],
    decreases m.len(),
{
    let all = put(m, key, value);
    if m.len() > 0 && m[0].0 != key && !text::text_lt(key, m[0].0) {
        let rest = m.drop_first();
        lemma_put_entries(rest, key, value);
        assert forall|j: int| #![trigger all[j]] 0 <= j < all.len() implies all[j] == (key, value)
            || exists|k: int| 0 <= k < m.len() && #[trigger] m[k] == all[j] by {
            if j == 0 {
                assert(m[0] == all[0]);
            } else {
                assert(put(rest, key, value)[j - 1] == all[j]);
                if all[j] != (key, value) {
                    let k = choose|k: int|
                        0 <= k < rest.len() && #[trigger] rest[k] == put(rest, key, value)[j - 1];
                    assert(m[k + 1] == all[j]);
                }
            }
        }
    } else {
        assert forall|j: int| #![trigger all[j]] 0 <= j < all.len() implies all[j] == (key, value)
            || exists|k: int| 0 <= k < m.len() && #[trigger] m[k] == all[j] by {
            if j > 0 {
                if m.len() > 0 && m[0].0 == key {
                    assert(m[j] == all[j]);
                } else if m.len() > 0 {
                    assert(m[j - 1] == all[j]);
                }
            }
        }
    }
}

/// Dropping a key leaves the others as they were.
pub proof fn lemma_drop_lookup<V>(m: Seq<(Seq<char>, V)>, key: Seq<char>, other: Seq<char>)
    requires
        other != key,
    ensures
        lookup(drop_key(m, key), other) == lookup(m, other),
    decreases m.len(),
{
    if m.len() > 0 && m[0].0 != key {
        lemma_drop_lookup(m.drop_first(), key, other);
        let rest = drop_key(m, key);
        assert(rest.drop_first() =~= drop_key(m.drop_first(), key));
    }
}

/// Of two bindings of one key, the later counts.
pub proof fn lemma_put_put<V>(m: Seq<(Seq<char>, V)>, key: Seq<char>, a: V, b: V)
    ensures
        put(put(m, key, a), key, b) == put(m, key, b),
    decreases m.len(),
{
    text::lemma_text_lt_irreflexive(key);
    let once = put(m, key, a);
    if m.len() == 0 {
        assert(once.drop_first() =~= m);
        assert(put(once, key, b) =~= put(m, key, b));
    } else if m[0].0 == key {
        assert(once.drop_first() =~= m.drop_first());
    } else if text::text_lt(key, m[0].0) {
        assert(once.drop_first() =~= m);
    } else {
        lemma_put_put(m.drop_first(), key, a, b);
        assert(once.drop_first() =~= put(m.drop_first(), key, a));
    }
}

/// Dropping a key drops what was bound to it.
pub proof fn lemma_drop_put<V>(m: Seq<(Seq<char>, V)>, key: Seq<char>, value: V)
    requires
        ordered(m),
    ensures
        drop_key(put(m, key, value), key) == drop_key(m, key),
    decreases m.len(),
{
    let now = put(m, key, value);
    if m.len() == 0 {
        assert(now.drop_first() =~= m);
    } else if m[0].0 == key {
        assert(now.drop_first() =~= m.drop_first());
    } else if text::text_lt(key, m[0].0) {
        assert(now.drop_first() =~= m);
        let i = lemma_lookup_index(m, key);
        if i < m.len() {
            text::lemma_text_lt_transitive(key, m[0].0, m[i].0);
            text::lemma_text_lt_irreflexive(key);
        }
        lemma_drop_key_at(m, key, i);
    } else {
        let rest = m.drop_first();
        assert forall|i: int, j: int| 0 <= i < j < rest.len() implies text::text_lt(
            (#[trigger] rest[i]).0,
            (#[trigger] rest[j]).0,
        ) by {
            assert(rest[i] == m[i + 1] && rest[j] == m[j + 1]);
        }
        lemma_drop_put(rest, key, value);
        assert(now.drop_first() =~= put(rest, key, value));
    }
}

/// Without a key the map is still in order, and the key is gone.
pub proof fn lemma_drop_ordered<V>(m: Seq<(Seq<char>, V)>, key: Seq<char>)
    requires
        ordered(m),
    ensures
        ordered(drop_key(m, key)),
        lookup(drop_key(m, key), key) is None,
{
    let i = lemma_lookup_index(m, key);
    lemma_drop_key_at(m, key, i);
    let rest = drop_key(m, key);
    if i < m.len() {
        assert(rest =~= m.remove(i));
        assert forall|j: int| 0 <= j < rest.len() implies (#[trigger] rest[j]).0 != key by {
            text::lemma_text_lt_irreflexive(key);
            if j < i {
                assert(rest[j] == m[j]);
            } else {
                assert(rest[j] == m[j + 1]);
                assert(text::text_lt(m[i].0, m[j + 1].0));
            }
        }
        assert forall|j: int, k: int| 0 <= j < k < rest.len() implies text::text_lt(
            (#[trigger] rest[j]).0,
            (#[trigger] rest[k]).0,
        ) by {
            let a = if j < i {
                j
            } else {
                j + 1
            };
            let b = if k < i {
                k
            } else {
                k + 1
            };
            assert(rest[j] == m[a] && rest[k] == m[b]);
        }
    }
    lemma_lookup_at(rest, key, rest.len() as int);
}

/// Maps in key order that bind the same keys alike are the same.
pub proof fn lemma_same_map<V>(a: Seq<(Seq<char>, V)>, b: Seq<(Seq<char>, V)>)
    requires
        ordered(a),
        ordered(b),
        forall|key: Seq<char>| #[trigger] lookup(a, key) == lookup(b, key),
    ensures
        a == b,
    decreases a.len(),
{
    if a.len() == 0 {
        if b.len() > 0 {
            lemma_lookup_entry(b, 0);
            assert(lookup(a, b[0].0) == lookup(b, b[0].0));
        }
        assert(a =~= b);
    } else {
        lemma_lookup_entry(a, 0);
        assert(lookup(a, a[0].0) == lookup(b, a[0].0));
        let i = lemma_lookup_index(b, a[0].0);
        lemma_lookup_entry(b, 0);
        assert(lookup(a, b[0].0) == lookup(b, b[0].0));
        let j = lemma_lookup_index(a, b[0].0);
        if i > 0 && j > 0 {
            text::lemma_text_lt_transitive(a[0].0, b[0].0, a[0].0);
            text::lemma_text_lt_irreflexive(a[0].0);
        }
        let rest_a = a.drop_first();
        let rest_b = b.drop_first();
        lemma_rest_ordered(a);
        lemma_rest_ordered(b);
        assert forall|key: Seq<char>| #[trigger] lookup(rest_a, key) == lookup(rest_b, key) by {
            assert(lookup(a, key) == lookup(b, key));
        }
        lemma_same_map(rest_a, rest_b);
        assert(a =~= seq![a[0]] + rest_a);
        assert(b =~= seq![b[0]] + rest_b);
    }
}

/// Behind the first entry the map is in order and lacks the first key.
proof fn lemma_rest_ordered<V>(m: Seq<(Seq<char>, V)>)
    requires
        ordered(m),
        m.len() > 0,
    ensures
        ordered(m.drop_first()),
        lookup(m.drop_first(), m[0].0) is None,
{
    let rest = m.drop_first();
    assert forall|i: int, j: int| 0 <= i < j < rest.len() implies text::text_lt(
        (#[trigger] rest[i]).0,
        (#[trigger] rest[j]).0,
    ) by {
        assert(rest[i] == m[i + 1] && rest[j] == m[j + 1]);
    }
    assert forall|j: int| 0 <= j < rest.len() implies (#[trigger] rest[j]).0 != m[0].0 by {
        text::lemma_text_lt_irreflexive(m[0].0);
        assert(text::text_lt(m[0].0, m[j + 1].0));
    }
    lemma_lookup_at(rest, m[0].0, rest.len() as int);
}

/// Binding two keys commutes.
pub proof fn lemma_put_commute<V>(
    m: Seq<(Seq<char>, V)>,
    k: Seq<char>,
    a: V,
    l: Seq<char>,
    b: V,
)
    requires
        ordered(m),
        k != l,
    ensures
        put(put(m, k, a), l, b) == put(put(m, l, b), k, a),
{
    let x = put(put(m, k, a), l, b);
    let y = put(put(m, l, b), k, a);
    lemma_put_ordered(m, k, a);
    lemma_put_ordered(m, l, b);
    lemma_put_ordered(put(m, k, a), l, b);
    lemma_put_ordered(put(m, l, b), k, a);
    assert forall|key: Seq<char>| #[trigger] lookup(x, key) == lookup(y, key) by {
        lemma_put_lookup(m, k, a, key);
        lemma_put_lookup(m, l, b, key);
        lemma_put_lookup(put(m, k, a), l, b, key);
        lemma_put_lookup(put(m, l, b), k, a, key);
    }
    lemma_same_map(x, y);
}

/// Dropping one key and binding another commute.
pub proof fn lemma_drop_put_commute<V>(
    m: Seq<(Seq<char>, V)>,
    k: Seq<char>,
    l: Seq<char>,
    b: V,
)
    requires
        ordered(m),
        k != l,
    ensures
        drop_key(put(m, l, b), k) == put(drop_key(m, k), l, b),
{
    let x = drop_key(put(m, l, b), k);
    let y = put(drop_key(m, k), l, b);
    lemma_put_ordered(m, l, b);
    lemma_drop_ordered(put(m, l, b), k);
    lemma_drop_ordered(m, k);
    lemma_put_ordered(drop_key(m, k), l, b);
    assert forall|key: Seq<char>| #[trigger] lookup(x, key) == lookup(y, key) by {
        lemma_put_lookup(m, l, b, key);
        lemma_put_lookup(drop_key(m, k), l, b, key);
        if key != k {
            lemma_drop_lookup(put(m, l, b), k, key);
            lemma_drop_lookup(m, k, key);
        }
    }
    lemma_same_map(x, y);
}

} // verus!
