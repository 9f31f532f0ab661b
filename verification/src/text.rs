//! Text as sequences of characters: the few string operations the pipeline
//! needs, each with its meaning over `Seq<char>`.

use crate::outside;
use vstd::prelude::*;

verus! {

/// `String::push` appends one character.
pub assume_specification[ String::push ](s: &mut String, c: char)
    ensures
        final(s)@ == old(s)@.push(c),
;

/// `String::push_str` appends the characters of `tail`.
pub assume_specification[ String::push_str ](s: &mut String, tail: &str)
    ensures
        final(s)@ == old(s)@ + tail@,
;

/// Lexicographic order by code point, which is the order `Ord` gives `str`.
pub open spec fn text_lt(a: Seq<char>, b: Seq<char>) -> bool
    decreases a.len(),
{
    if b.len() == 0 {
        false
    } else if a.len() == 0 {
        true
    } else if a[0] == b[0] {
        text_lt(a.drop_first(), b.drop_first())
    } else {
        (a[0] as int) < (b[0] as int)
    }
}

pub proof fn lemma_text_lt_irreflexive(a: Seq<char>)
    ensures
        !text_lt(a, a),
    decreases a.len(),
{
    if a.len() > 0 {
        lemma_text_lt_irreflexive(a.drop_first());
    }
}

pub proof fn lemma_text_lt_transitive(a: Seq<char>, b: Seq<char>, c: Seq<char>)
    requires
        text_lt(a, b),
        text_lt(b, c),
    ensures
        text_lt(a, c),
    decreases a.len(),
{
    if a.len() > 0 && a[0] == b[0] && b[0] == c[0] {
        lemma_text_lt_transitive(a.drop_first(), b.drop_first(), c.drop_first());
    }
}

pub proof fn lemma_text_lt_total(a: Seq<char>, b: Seq<char>)
    ensures
        a == b || text_lt(a, b) || text_lt(b, a),
    decreases a.len(),
{
    if a.len() > 0 && b.len() > 0 && a[0] == b[0] {
        lemma_text_lt_total(a.drop_first(), b.drop_first());
        assert(a =~= seq![a[0]] + a.drop_first());
        assert(b =~= seq![b[0]] + b.drop_first());
    } else if a.len() == 0 && b.len() == 0 {
        assert(a =~= b);
    }
}

/// The characters of a string, by index.
pub fn chars_of(text: &str) -> (chars: Vec<char>)
    ensures
        chars@ == text@,
{
    let mut chars: Vec<char> = Vec::new();
    for c in it: text.chars()
        invariant
            chars@ == text@.take(it.index()),
            it.seq() == text@,
    {
        chars.push(c);
        assert(text@.take(it.index() + 1) =~= text@.take(it.index()).push(c));
    }
    assert(text@.take(text@.len() as int) =~= text@);
    chars
}

/// The code point of a character.
pub fn code_point(c: char) -> (n: u32)
    ensures
        n as int == c as int,
{
    c as u32
}

/// Whether two strings hold the same characters.
pub fn same_text(a: &str, b: &str) -> (same: bool)
    ensures
        same == (a@ == b@),
{
    let left = a.to_owned();
    let right = b.to_owned();
    left == right
}

pub fn text_before(a: &str, b: &str) -> (before: bool)
    ensures
        before == text_lt(a@, b@),
{
    let left = chars_of(a);
    let right = chars_of(b);
    let mut i: usize = 0;
    assert(a@.skip(0) =~= a@ && b@.skip(0) =~= b@);
    while i < left.len() && i < right.len()
        invariant
            left@ == a@,
            right@ == b@,
            i <= a@.len(),
            i <= b@.len(),
            text_lt(a@, b@) == text_lt(a@.skip(i as int), b@.skip(i as int)),
        decreases a@.len() - i,
    {
        let l: char = left[i];
        let r: char = right[i];
        if l != r {
            return code_point(l) < code_point(r);
        }
        assert(a@.skip(i as int).drop_first() =~= a@.skip(i + 1));
        assert(b@.skip(i as int).drop_first() =~= b@.skip(i + 1));
        i += 1;
    }
    left.len() < right.len()
}

/// The characters of each string.
pub open spec fn texts(strings: Seq<String>) -> Seq<Seq<char>> {
    strings.map_values(|s: String| s@)
}

pub proof fn lemma_texts_push(strings: Seq<String>, s: String)
    ensures
        texts(strings.push(s)) == texts(strings).push(s@),
{
    assert(texts(strings.push(s)) =~= texts(strings).push(s@));
}

pub open spec fn opt_text(s: Option<String>) -> Option<Seq<char>> {
    match s {
        Some(s) => Some(s@),
        None => None,
    }
}

// ASCII case.

pub open spec fn lower_char(c: char) -> char {
    if 'A' <= c && c <= 'Z' {
        (c as u8 + 32) as char
    } else {
        c
    }
}

pub open spec fn upper_char(c: char) -> char {
    if 'a' <= c && c <= 'z' {
        (c as u8 - 32) as char
    } else {
        c
    }
}

pub open spec fn ascii_lower(s: Seq<char>) -> Seq<char> {
    s.map_values(|c: char| lower_char(c))
}

pub open spec fn ascii_upper(s: Seq<char>) -> Seq<char> {
    s.map_values(|c: char| upper_char(c))
}

fn to_lower_char(c: char) -> (l: char)
    ensures
        l == lower_char(c),
{
    if 'A' <= c && c <= 'Z' {
        (c as u8 + 32) as char
    } else {
        c
    }
}

fn to_upper_char(c: char) -> (u: char)
    ensures
        u == upper_char(c),
{
    if 'a' <= c && c <= 'z' {
        (c as u8 - 32) as char
    } else {
        c
    }
}

/// `A`–`Z` become `a`–`z`; every other character stays.
pub fn to_ascii_lower(text: &str) -> (lower: String)
    ensures
        lower@ == ascii_lower(text@),
{
    let chars = chars_of(text);
    let mut lower = String::new();
    let mut i: usize = 0;
    while i < chars.len()
        invariant
            chars@ == text@,
            i <= chars@.len(),
            lower@ == ascii_lower(text@.take(i as int)),
        decreases chars@.len() - i,
    {
        lower.push(to_lower_char(chars[i]));
        assert(ascii_lower(text@.take(i + 1)) =~= ascii_lower(text@.take(i as int)).push(
            lower_char(text@[i as int]),
        ));
        i += 1;
    }
    assert(text@.take(text@.len() as int) =~= text@);
    lower
}

/// `a`–`z` become `A`–`Z`; every other character stays.
pub fn to_ascii_upper(text: &str) -> (upper: String)
    ensures
        upper@ == ascii_upper(text@),
{
    let chars = chars_of(text);
    let mut upper = String::new();
    let mut i: usize = 0;
    while i < chars.len()
        invariant
            chars@ == text@,
            i <= chars@.len(),
            upper@ == ascii_upper(text@.take(i as int)),
        decreases chars@.len() - i,
    {
        upper.push(to_upper_char(chars[i]));
        assert(ascii_upper(text@.take(i + 1)) =~= ascii_upper(text@.take(i as int)).push(
            upper_char(text@[i as int]),
        ));
        i += 1;
    }
    assert(text@.take(text@.len() as int) =~= text@);
    upper
}

/// Equality up to ASCII case.
pub open spec fn alike(a: Seq<char>, b: Seq<char>) -> bool {
    ascii_lower(a) == ascii_lower(b)
}

pub fn same_ignoring_case(a: &str, b: &str) -> (same: bool)
    ensures
        same == alike(a@, b@),
{
    let left = to_ascii_lower(a);
    let right = to_ascii_lower(b);
    left == right
}

// Prefixes and occurrences.

/// `part` stands in `s` at index `i`.
pub open spec fn stands_at(s: Seq<char>, part: Seq<char>, i: int) -> bool {
    &&& 0 <= i
    &&& i + part.len() <= s.len()
    &&& s.subrange(i, i + part.len()) == part
}

pub open spec fn begins(s: Seq<char>, prefix: Seq<char>) -> bool {
    stands_at(s, prefix, 0)
}

pub open spec fn holds(s: Seq<char>, part: Seq<char>) -> bool {
    exists|i: int| stands_at(s, part, i)
}

fn chars_stand_at(s: &Vec<char>, part: &Vec<char>, i: usize) -> (stands: bool)
    requires
        i <= s@.len(),
    ensures
        stands == stands_at(s@, part@, i as int),
{
    let len: usize = s.len();
    if part.len() > len - i {
        return false;
    }
    let mut j: usize = 0;
    while j < part.len()
        invariant
            j <= part@.len(),
            len == s@.len(),
            i + part@.len() <= len,
            forall|k: int| 0 <= k < j ==> s@[i + k] == part@[k],
        decreases part@.len() - j,
    {
        if s[i + j] != part[j] {
            assert(s@.subrange(i as int, i + part@.len())[j as int] != part@[j as int]);
            return false;
        }
        j += 1;
    }
    assert(s@.subrange(i as int, i + part@.len()) =~= part@);
    true
}

pub fn starts_with(text: &str, prefix: &str) -> (yes: bool)
    ensures
        yes == begins(text@, prefix@),
{
    let s = chars_of(text);
    let p = chars_of(prefix);
    chars_stand_at(&s, &p, 0)
}

/// What follows `prefix`, where the text begins with it.
pub fn strip_prefix(text: &str, prefix: &str) -> (rest: Option<String>)
    ensures
        opt_text(rest) == (if begins(text@, prefix@) {
            Some(text@.skip(prefix@.len() as int))
        } else {
            None
        }),
{
    let s = chars_of(text);
    let p = chars_of(prefix);
    if chars_stand_at(&s, &p, 0) {
        let rest = text.substring_char(p.len(), s.len());
        Some(rest.to_owned())
    } else {
        None
    }
}

/// The first index at which `part` stands in `s`, from `i` on.
pub open spec fn find_from(s: Seq<char>, part: Seq<char>, i: int) -> Option<int>
    decreases s.len() + 1 - i,
{
    if i < 0 || i + part.len() > s.len() {
        None
    } else if stands_at(s, part, i) {
        Some(i)
    } else {
        find_from(s, part, i + 1)
    }
}

pub proof fn lemma_find_from(s: Seq<char>, part: Seq<char>, i: int)
    requires
        0 <= i,
    ensures
        match find_from(s, part, i) {
            Some(k) => {
                &&& i <= k
                &&& stands_at(s, part, k)
                &&& forall|j: int| i <= j < k ==> !stands_at(s, part, j)
            },
            None => forall|j: int| i <= j ==> !stands_at(s, part, j),
        },
    decreases s.len() + 1 - i,
{
    if i + part.len() <= s.len() && !stands_at(s, part, i) {
        lemma_find_from(s, part, i + 1);
    }
}

fn find_chars(s: &Vec<char>, part: &Vec<char>) -> (at: Option<usize>)
    ensures
        match at {
            Some(k) => find_from(s@, part@, 0) == Some(k as int),
            None => find_from(s@, part@, 0) is None,
        },
        at matches Some(k) ==> stands_at(s@, part@, k as int),
{
    let mut i: usize = 0;
    while part.len() <= s.len() - i
        invariant
            i <= s@.len(),
            find_from(s@, part@, 0) == find_from(s@, part@, i as int),
        decreases s@.len() - i,
    {
        if chars_stand_at(s, part, i) {
            return Some(i);
        }
        if i == s.len() {
            assert(s@.subrange(i as int, i as int) =~= part@);
            return None;
        }
        i += 1;
    }
    None
}

/// Whether `part` stands anywhere in the text.
pub fn text_contains(text: &str, part: &str) -> (yes: bool)
    ensures
        yes == holds(text@, part@),
{
    let s = chars_of(text);
    let p = chars_of(part);
    proof {
        lemma_find_from(text@, part@, 0);
    }
    find_chars(&s, &p).is_some()
}

/// The text split around the first occurrence of `marker`.
pub open spec fn split_at_marker(s: Seq<char>, marker: Seq<char>) -> Option<(Seq<char>, Seq<char>)> {
    match find_from(s, marker, 0) {
        Some(k) => Some((s.take(k), s.skip(k + marker.len()))),
        None => None,
    }
}

/// The halves and the marker between them make up the text.
pub proof fn lemma_split_at_marker(s: Seq<char>, marker: Seq<char>)
    ensures
        split_at_marker(s, marker) matches Some(halves) ==> s == halves.0 + marker + halves.1,
{
    if let Some(k) = find_from(s, marker, 0) {
        lemma_find_from(s, marker, 0);
        assert(s =~= s.take(k) + marker + s.skip(k + marker.len()));
    }
}

pub fn split_once(text: &str, marker: &str) -> (halves: Option<(String, String)>)
    ensures
        match halves {
            Some(halves) => split_at_marker(text@, marker@) == Some((halves.0@, halves.1@)),
            None => split_at_marker(text@, marker@) is None,
        },
{
    let s = chars_of(text);
    let m = chars_of(marker);
    match find_chars(&s, &m) {
        Some(k) => {
            let len: usize = s.len();
            assert(k + m@.len() <= len);
            let head = text.substring_char(0, k);
            let tail = text.substring_char(k + m.len(), len);
            Some((head.to_owned(), tail.to_owned()))
        },
        None => None,
    }
}

// Splitting at a character.

/// What follows the last `c`, or the whole text where there is none.
pub open spec fn after_last(s: Seq<char>, c: char) -> Seq<char>
    decreases s.len(),
{
    if s.len() == 0 || s.last() == c {
        Seq::empty()
    } else {
        after_last(s.drop_last(), c).push(s.last())
    }
}

pub fn tail_after(text: &str, c: char) -> (tail: String)
    ensures
        tail@ == after_last(text@, c),
{
    let s = chars_of(text);
    let mut i: usize = s.len();
    assert(text@.subrange(i as int, text@.len() as int) =~= Seq::<char>::empty());
    assert(text@.take(i as int) =~= text@);
    assert(after_last(text@, c) =~= after_last(text@.take(i as int), c) + text@.subrange(
        i as int,
        text@.len() as int,
    ));
    while i > 0
        invariant_except_break
            after_last(text@, c) == after_last(text@.take(i as int), c) + text@.subrange(
                i as int,
                text@.len() as int,
            ),
        invariant
            s@ == text@,
            i <= s@.len(),
        ensures
            after_last(text@, c) == text@.subrange(i as int, text@.len() as int),
        decreases i,
    {
        if s[i - 1] == c {
            assert(text@.take(i as int).last() == c);
            assert(after_last(text@, c) =~= text@.subrange(i as int, text@.len() as int));
            break;
        }
        assert(text@.take(i as int).drop_last() =~= text@.take(i - 1));
        assert(after_last(text@, c) =~= after_last(text@.take(i - 1), c) + text@.subrange(
            i - 1,
            text@.len() as int,
        ));
        i -= 1;
        if i == 0 {
            assert(after_last(text@, c) =~= text@.subrange(i as int, text@.len() as int));
        }
    }
    text.substring_char(i, s.len()).to_owned()
}

/// The pieces of the text between occurrences of `c`.
pub open spec fn split(s: Seq<char>, c: char) -> Seq<Seq<char>>
    decreases s.len(),
{
    if s.len() == 0 {
        seq![Seq::empty()]
    } else {
        let before = split(s.drop_last(), c);
        if s.last() == c {
            before.push(Seq::empty())
        } else {
            before.drop_last().push(before.last().push(s.last()))
        }
    }
}

pub fn split_text(text: &str, c: char) -> (pieces: Vec<String>)
    ensures
        texts(pieces@) == split(text@, c),
        pieces@.len() >= 1,
{
    let s = chars_of(text);
    let mut pieces: Vec<String> = Vec::new();
    let mut piece = String::new();
    let mut i: usize = 0;
    assert(texts(pieces@).push(piece@) =~= split(text@.take(0), c));
    while i < s.len()
        invariant
            s@ == text@,
            i <= s@.len(),
            texts(pieces@).push(piece@) == split(text@.take(i as int), c),
        decreases s@.len() - i,
    {
        assert(text@.take(i + 1).drop_last() =~= text@.take(i as int));
        let ghost before = texts(pieces@).push(piece@);
        assert(before.drop_last() =~= texts(pieces@));
        if s[i] == c {
            proof {
                lemma_texts_push(pieces@, piece);
            }
            pieces.push(piece);
            piece = String::new();
        } else {
            piece.push(s[i]);
        }
        i += 1;
    }
    assert(text@.take(text@.len() as int) =~= text@);
    proof {
        lemma_texts_push(pieces@, piece);
    }
    pieces.push(piece);
    pieces
}

/// The text without its leading `c`s.
pub open spec fn trim_start(s: Seq<char>, c: char) -> Seq<char>
    decreases s.len(),
{
    if s.len() > 0 && s[0] == c {
        trim_start(s.drop_first(), c)
    } else {
        s
    }
}

pub fn trim_leading(text: &str, c: char) -> (rest: String)
    ensures
        rest@ == trim_start(text@, c),
{
    let s = chars_of(text);
    let mut i: usize = 0;
    assert(text@.skip(0) =~= text@);
    while i < s.len() && s[i] == c
        invariant
            s@ == text@,
            i <= s@.len(),
            trim_start(text@, c) == trim_start(text@.skip(i as int), c),
        decreases s@.len() - i,
    {
        assert(text@.skip(i as int).drop_first() =~= text@.skip(i + 1));
        i += 1;
    }
    text.substring_char(i, s.len()).to_owned()
}

// Joining.

/// The parts one after another, with `sep` between neighbours.
pub open spec fn join(parts: Seq<Seq<char>>, sep: Seq<char>) -> Seq<char>
    decreases parts.len(),
{
    if parts.len() == 0 {
        Seq::empty()
    } else if parts.len() == 1 {
        parts[0]
    } else {
        join(parts.drop_last(), sep) + sep + parts.last()
    }
}

pub fn join_texts(parts: &Vec<String>, sep: &str) -> (joined: String)
    ensures
        joined@ == join(texts(parts@), sep@),
{
    let mut joined = String::new();
    let mut i: usize = 0;
    while i < parts.len()
        invariant
            i <= parts@.len(),
            joined@ == join(texts(parts@).take(i as int), sep@),
        decreases parts@.len() - i,
    {
        if i > 0 {
            joined.push_str(sep);
        }
        joined.push_str(parts[i].as_str());
        proof {
            let now = texts(parts@).take(i + 1);
            assert(now.drop_last() =~= texts(parts@).take(i as int));
            assert(now.last() == parts@[i as int]@);
            if i == 0 {
                assert(joined@ =~= now[0]);
            }
        }
        i += 1;
    }
    assert(texts(parts@).take(parts@.len() as int) =~= texts(parts@));
    joined
}

// Numbers.

pub open spec fn digit(n: nat) -> char {
    (n + 48) as char
}

/// The decimal form of a natural number.
pub open spec fn decimal(n: nat) -> Seq<char>
    decreases n,
{
    if n < 10 {
        seq![digit(n)]
    } else {
        decimal(n / 10).push(digit(n % 10))
    }
}

/// The decimal form of an integer.
pub open spec fn signed_decimal(n: int) -> Seq<char> {
    if n < 0 {
        "-"@ + decimal((-n) as nat)
    } else {
        decimal(n as nat)
    }
}

pub fn decimal_text(n: u64) -> (text: String)
    ensures
        text@ == decimal(n as nat),
    decreases n,
{
    if n < 10 {
        let mut text = String::new();
        text.push((n as u8 + 48) as char);
        assert(text@ =~= seq![digit(n as nat)]);
        text
    } else {
        let mut text = decimal_text(n / 10);
        text.push(((n % 10) as u8 + 48) as char);
        text
    }
}

pub fn signed_text(n: i64) -> (text: String)
    ensures
        text@ == signed_decimal(n as int),
{
    if n < 0 {
        let mut text = "-".to_owned();
        let magnitude: u64 = (-(n as i128)) as u64;
        let digits = decimal_text(magnitude);
        text.push_str(digits.as_str());
        text
    } else {
        decimal_text(n as u64)
    }
}

/// The decimal form with a comma between groups of three digits.
pub open spec fn grouped(n: nat) -> Seq<char>
    decreases n,
{
    if n < 1000 {
        decimal(n)
    } else {
        grouped(n / 1000) + seq![
            ',',
            digit(n / 100 % 10),
            digit(n / 10 % 10),
            digit(n % 10),
        ]
    }
}

pub fn grouped_text(n: u64) -> (text: String)
    ensures
        text@ == grouped(n as nat),
    decreases n,
{
    if n < 1000 {
        decimal_text(n)
    } else {
        let mut text = grouped_text(n / 1000);
        let ghost head = text@;
        text.push(',');
        text.push(((n / 100 % 10) as u8 + 48) as char);
        text.push(((n / 10 % 10) as u8 + 48) as char);
        text.push(((n % 10) as u8 + 48) as char);
        assert(text@ =~= head + seq![
            ',',
            digit(n as nat / 100 % 10),
            digit(n as nat / 10 % 10),
            digit(n as nat % 10),
        ]);
        text
    }
}

// White space and Unicode case.

/// Whether a character has the Unicode property `White_Space`.
pub open spec fn is_white(c: char) -> bool {
    let n = c as int;
    ||| 0x9 <= n <= 0xd
    ||| n == 0x20
    ||| n == 0x85
    ||| n == 0xa0
    ||| n == 0x1680
    ||| 0x2000 <= n <= 0x200a
    ||| n == 0x2028
    ||| n == 0x2029
    ||| n == 0x202f
    ||| n == 0x205f
    ||| n == 0x3000
}

/// `char::is_whitespace`: the Unicode property `White_Space`, spelt out.
pub assume_specification[ char::is_whitespace ](c: char) -> (white: bool)
    ensures
        white == is_white(c),
;

/// The maximal runs of characters that are not white space.
pub open spec fn words(s: Seq<char>) -> Seq<Seq<char>>
    decreases s.len(),
{
    if s.len() == 0 {
        Seq::empty()
    } else {
        let before = words(s.drop_last());
        if is_white(s.last()) {
            before
        } else if s.len() >= 2 && !is_white(s[s.len() - 2]) {
            before.drop_last().push(before.last().push(s.last()))
        } else {
            before.push(seq![s.last()])
        }
    }
}

/// The words of the text, with one space between neighbours.
pub open spec fn collapsed(s: Seq<char>) -> Seq<char> {
    join(words(s), " "@)
}

pub fn split_words(text: &str) -> (found: Vec<String>)
    ensures
        texts(found@) == words(text@),
{
    let s = chars_of(text);
    let mut found: Vec<String> = Vec::new();
    let mut word = String::new();
    let mut inside: bool = false;
    let mut i: usize = 0;
    assert(texts(found@) =~= words(text@.take(0)));
    while i < s.len()
        invariant
            s@ == text@,
            i <= s@.len(),
            inside == (i > 0 && !is_white(s@[i - 1])),
            !inside ==> word@.len() == 0,
            words(text@.take(i as int)) == (if inside {
                texts(found@).push(word@)
            } else {
                texts(found@)
            }),
        decreases s@.len() - i,
    {
        let c: char = s[i];
        proof {
            let now = text@.take(i + 1);
            assert(now.drop_last() =~= text@.take(i as int));
            assert(texts(found@).push(word@).drop_last() =~= texts(found@));
            assert(seq![c] =~= word@.push(c) || inside);
        }
        if c.is_whitespace() {
            if inside {
                proof {
                    lemma_texts_push(found@, word);
                }
                found.push(word);
                word = String::new();
                inside = false;
            }
        } else {
            word.push(c);
            inside = true;
        }
        i += 1;
    }
    assert(text@.take(text@.len() as int) =~= text@);
    if inside {
        proof {
            lemma_texts_push(found@, word);
        }
        found.push(word);
    }
    found
}

pub fn collapse(text: &str) -> (line: String)
    ensures
        line@ == collapsed(text@),
{
    let found = split_words(text);
    join_texts(&found, " ")
}

/// The Unicode lower-case form of a text.
pub uninterp spec fn lower_text(s: Seq<char>) -> Seq<char>;

/// `str::to_lowercase` depends on the characters alone; the Unicode tables are
/// left unsaid.
pub assume_specification[ str::to_lowercase ](s: &str) -> (lower: String)
    ensures
        lower@ == lower_text(s@),
;

// Lengths in UTF-8.

/// How many bytes UTF-8 spends on a character.
pub open spec fn utf8_width(c: char) -> nat {
    if (c as int) < 0x80 {
        1
    } else if (c as int) < 0x800 {
        2
    } else if (c as int) < 0x10000 {
        3
    } else {
        4
    }
}

pub open spec fn utf8_len(s: Seq<char>) -> nat
    decreases s.len(),
{
    if s.len() == 0 {
        0
    } else {
        utf8_len(s.drop_last()) + utf8_width(s.last())
    }
}

pub fn width_of(c: char) -> (width: usize)
    ensures
        width as nat == utf8_width(c),
        1 <= width <= 4,
{
    let code: u32 = code_point(c);
    if code < 0x80 {
        1
    } else if code < 0x800 {
        2
    } else if code < 0x10000 {
        3
    } else {
        4
    }
}

pub proof fn lemma_utf8_len_monotone(s: Seq<char>, i: int)
    requires
        0 <= i <= s.len(),
    ensures
        utf8_len(s.take(i)) <= utf8_len(s),
    decreases s.len(),
{
    if i < s.len() {
        lemma_utf8_len_monotone(s.drop_last(), i);
        assert(s.drop_last().take(i) =~= s.take(i));
    } else {
        assert(s.take(i) =~= s);
    }
}

/// Whether the text takes at least `n` bytes in UTF-8.
pub fn at_least_bytes(text: &str, n: usize) -> (yes: bool)
    ensures
        yes == (utf8_len(text@) >= n),
{
    let s = chars_of(text);
    let mut missing: usize = n;
    let mut i: usize = 0;
    while i < s.len()
        invariant
            s@ == text@,
            i <= s@.len(),
            utf8_len(text@.take(i as int)) + missing == n,
        decreases s@.len() - i,
    {
        assert(text@.take(i + 1).drop_last() =~= text@.take(i as int));
        let width = width_of(s[i]);
        if width >= missing {
            proof {
                lemma_utf8_len_monotone(text@, i + 1);
            }
            return true;
        }
        missing -= width;
        i += 1;
    }
    assert(text@.take(text@.len() as int) =~= text@);
    missing == 0
}

/// Whether a text is one of the given texts.
pub fn is_among(text: &str, list: &Vec<String>) -> (yes: bool)
    ensures
        yes == texts(list@).contains(text@),
{
    let mut i: usize = 0;
    while i < list.len()
        invariant
            i <= list@.len(),
            forall|j: int| 0 <= j < i ==> (#[trigger] texts(list@)[j]) != text@,
        decreases list@.len() - i,
    {
        assert(texts(list@)[i as int] == list@[i as int]@);
        if same_text(text, list[i].as_str()) {
            return true;
        }
        i += 1;
    }
    false
}

/// The text's first `n` bytes, or all of it where it is shorter: `None` where
/// the cut would fall inside a character.
pub open spec fn byte_prefix(s: Seq<char>, n: nat) -> Option<Seq<char>>
    decreases s.len(),
{
    if n == 0 || s.len() == 0 {
        Some(Seq::empty())
    } else if utf8_width(s[0]) > n {
        None
    } else {
        match byte_prefix(s.drop_first(), (n - utf8_width(s[0])) as nat) {
            Some(rest) => Some(seq![s[0]] + rest),
            None => None,
        }
    }
}

pub fn byte_cut(text: &str, n: usize) -> (prefix: Option<String>)
    ensures
        opt_text(prefix) == byte_prefix(text@, n as nat),
{
    let s = chars_of(text);
    let mut prefix = String::new();
    let mut left: usize = n;
    let mut i: usize = 0;
    assert(text@.skip(0) =~= text@);
    assert(forall|rest: Seq<char>| prefix@ + rest =~= rest);
    while i < s.len() && left > 0
        invariant
            s@ == text@,
            i <= s@.len(),
            byte_prefix(text@, n as nat) == prefixed(
                prefix@,
                byte_prefix(text@.skip(i as int), left as nat),
            ),
        decreases s@.len() - i,
    {
        assert(text@.skip(i as int).drop_first() =~= text@.skip(i + 1));
        let width: usize = width_of(s[i]);
        if width > left {
            return None;
        }
        proof {
            let c = s@[i as int];
            assert(forall|rest: Seq<char>|
                prefix@ + (seq![c] + rest) =~= #[trigger] (prefix@.push(c) + rest));
        }
        prefix.push(s[i]);
        left -= width;
        i += 1;
    }
    assert(prefix@ + Seq::<char>::empty() =~= prefix@);
    Some(prefix)
}

pub open spec fn prefixed(head: Seq<char>, tail: Option<Seq<char>>) -> Option<Seq<char>> {
    match tail {
        Some(tail) => Some(head + tail),
        None => None,
    }
}

/// The text's first `n` bytes, or all of it where it is shorter.
pub fn first_bytes(text: &str, n: usize) -> (prefix: String)
    requires
        byte_prefix(text@, n as nat) is Some,
    ensures
        Some(prefix@) == byte_prefix(text@, n as nat),
{
    match byte_cut(text, n) {
        Some(prefix) => prefix,
        None => String::new(),
    }
}

/// Whether a text can be cut after its first `n` bytes.
pub fn cuts_cleanly(text: &str, n: usize) -> (yes: bool)
    ensures
        yes == (byte_prefix(text@, n as nat) is Some),
{
    byte_cut(text, n).is_some()
}

// Facts about splitting, trimming and case.

/// No ASCII capital.
pub open spec fn settled(s: Seq<char>) -> bool {
    forall|i: int| 0 <= i < s.len() ==> lower_char(#[trigger] s[i]) == s[i]
}

pub proof fn lemma_lower_settled(s: Seq<char>)
    ensures
        settled(ascii_lower(s)),
        settled(s) ==> ascii_lower(s) == s,
{
    if settled(s) {
        assert(ascii_lower(s) =~= s);
    }
}

/// The pieces between separators hold no separator, and no capital where the
/// text holds none.
pub proof fn lemma_split_pieces(s: Seq<char>, c: char)
    ensures
        split(s, c).len() >= 1,
        forall|i: int| 0 <= i < split(s, c).len() ==> !(#[trigger] split(s, c)[i]).contains(c),
        settled(s) ==> forall|i: int|
            0 <= i < split(s, c).len() ==> settled(#[trigger] split(s, c)[i]),
    decreases s.len(),
{
    if s.len() > 0 {
        lemma_split_pieces(s.drop_last(), c);
        let before = split(s.drop_last(), c);
        let now = split(s, c);
        assert forall|i: int| 0 <= i < now.len() implies !(#[trigger] now[i]).contains(c) by {
            if i < before.len() - 1 {
                assert(now[i] == before[i]);
            } else if s.last() != c {
                let piece = before.last().push(s.last());
                assert(now[i] == piece);
                if piece.contains(c) {
                    let k = choose|k: int| 0 <= k < piece.len() && piece[k] == c;
                    assert(before.last()[k] == c);
                    assert(before[before.len() - 1].contains(c));
                }
            } else if i < before.len() {
                assert(now[i] == before[i]);
            }
        }
        if settled(s) {
            assert(settled(s.drop_last())) by {
                assert forall|i: int| 0 <= i < s.drop_last().len() implies lower_char(
                    #[trigger] s.drop_last()[i],
                ) == s.drop_last()[i] by {
                    assert(s.drop_last()[i] == s[i]);
                }
            }
            assert(lower_char(s[s.len() - 1]) == s[s.len() - 1]);
            assert forall|i: int| 0 <= i < now.len() implies settled(#[trigger] now[i]) by {
                if i < before.len() - 1 {
                    assert(now[i] == before[i]);
                } else if s.last() != c {
                    assert(now[i] == before.last().push(s.last()));
                    assert(settled(before[before.len() - 1]));
                } else if i < before.len() {
                    assert(now[i] == before[i]);
                }
            }
        }
    }
}

/// A text without the separator is one piece.
pub proof fn lemma_split_one(s: Seq<char>, c: char)
    requires
        !s.contains(c),
    ensures
        split(s, c) == seq![s],
    decreases s.len(),
{
    if s.len() > 0 {
        assert forall|i: int| 0 <= i < s.drop_last().len() implies s.drop_last()[i] != c by {
            assert(s[i] != c);
        }
        lemma_split_one(s.drop_last(), c);
        assert(s.contains(s.last()));
        assert(s.drop_last().push(s.last()) =~= s);
        assert(split(s, c) =~= seq![s]);
    } else {
        assert(s =~= Seq::<char>::empty());
    }
}

/// Two texts without the separator, joined by it, are two pieces.
pub proof fn lemma_split_two(a: Seq<char>, b: Seq<char>, c: char)
    requires
        !a.contains(c),
        !b.contains(c),
    ensures
        split(a.push(c) + b, c) == seq![a, b],
    decreases b.len(),
{
    let s = a.push(c) + b;
    if b.len() == 0 {
        assert(s =~= a.push(c));
        assert(s.drop_last() =~= a);
        lemma_split_one(a, c);
        assert(b =~= Seq::<char>::empty());
        assert(split(s, c) =~= seq![a, b]);
    } else {
        assert forall|i: int| 0 <= i < b.drop_last().len() implies b.drop_last()[i] != c by {
            assert(b[i] != c);
        }
        lemma_split_two(a, b.drop_last(), c);
        assert(s.drop_last() =~= a.push(c) + b.drop_last());
        assert(b.contains(b.last()));
        assert(b.drop_last().push(b.last()) =~= b);
        assert(split(s, c) =~= seq![a, b]);
    }
}

/// What is trimmed does not begin with the character, and is a part of the
/// text.
pub proof fn lemma_trimmed(s: Seq<char>, c: char)
    ensures
        trim_start(s, c).len() == 0 || trim_start(s, c)[0] != c,
        forall|d: char| trim_start(s, c).contains(d) ==> s.contains(d),
        settled(s) ==> settled(trim_start(s, c)),
    decreases s.len(),
{
    if s.len() > 0 && s[0] == c {
        let rest = s.drop_first();
        lemma_trimmed(rest, c);
        assert forall|d: char| trim_start(s, c).contains(d) implies s.contains(d) by {
            assert(rest.contains(d));
            let k = choose|k: int| 0 <= k < rest.len() && rest[k] == d;
            assert(s[k + 1] == d);
        }
        if settled(s) {
            assert forall|i: int| 0 <= i < rest.len() implies lower_char(#[trigger] rest[i])
                == rest[i] by {
                assert(rest[i] == s[i + 1]);
            }
        }
    }
}

// What the helpers are for.

/// A piece that holds no separator, set behind a text and a separator, is one
/// more piece.
pub proof fn lemma_split_more(s: Seq<char>, piece: Seq<char>, c: char)
    requires
        !piece.contains(c),
    ensures
        split(s.push(c) + piece, c) == split(s, c).push(piece),
    decreases piece.len(),
{
    let whole = s.push(c) + piece;
    if piece.len() == 0 {
        assert(whole =~= s.push(c));
        assert(whole.drop_last() =~= s);
        assert(piece =~= Seq::<char>::empty());
    } else {
        let front = piece.drop_last();
        assert forall|i: int| 0 <= i < front.len() implies front[i] != c by {
            assert(piece[i] != c);
        }
        lemma_split_more(s, front, c);
        assert(whole.drop_last() =~= s.push(c) + front);
        assert(piece.contains(piece.last()));
        assert(front.push(piece.last()) =~= piece);
        assert(split(s, c).push(front).drop_last() =~= split(s, c));
    }
}

/// Splitting undoes joining, where no part holds the separator.
pub proof fn law_split_undoes_join(parts: Seq<Seq<char>>, c: char)
    requires
        parts.len() > 0,
        forall|i: int| 0 <= i < parts.len() ==> !(#[trigger] parts[i]).contains(c),
    ensures
        split(join(parts, seq![c]), c) == parts,
    decreases parts.len(),
{
    if parts.len() == 1 {
        lemma_split_one(parts[0], c);
        assert(seq![parts[0]] =~= parts);
    } else {
        let front = parts.drop_last();
        assert forall|i: int| 0 <= i < front.len() implies !(#[trigger] front[i]).contains(c) by {
            assert(front[i] == parts[i]);
        }
        law_split_undoes_join(front, c);
        let s = join(front, seq![c]);
        assert(s + seq![c] =~= s.push(c));
        lemma_split_more(s, parts[parts.len() - 1], c);
        assert(front.push(parts.last()) =~= parts);
    }
}

/// Joining undoes splitting, for every text.
pub proof fn law_join_undoes_split(s: Seq<char>, c: char)
    ensures
        join(split(s, c), seq![c]) == s,
    decreases s.len(),
{
    if s.len() == 0 {
        assert(s =~= Seq::<char>::empty());
    } else {
        let before = split(s.drop_last(), c);
        law_join_undoes_split(s.drop_last(), c);
        lemma_split_pieces(s.drop_last(), c);
        assert(s.drop_last().push(s.last()) =~= s);
        if s.last() == c {
            let now = before.push(Seq::empty());
            assert(now.drop_last() =~= before);
            assert(join(now, seq![c]) =~= s.drop_last() + seq![c]);
        } else {
            let now = before.drop_last().push(before.last().push(s.last()));
            assert(now.drop_last() =~= before.drop_last());
            if now.len() == 1 {
                assert(join(now, seq![c]) =~= s);
            } else {
                assert(join(now, seq![c]) =~= s);
            }
        }
    }
}

/// A number written out is at least one digit, none but digits, without a
/// leading zero, and reads back as the number.
pub proof fn law_decimal_reads_back(n: nat)
    ensures
        outside::digits_value(decimal(n)) == Some(n),
        decimal(n).len() >= 1,
        n >= 10 ==> decimal(n)[0] != '0',
        n < 10 ==> decimal(n).len() == 1,
        forall|i: int| 0 <= i < decimal(n).len() ==> '0' <= #[trigger] decimal(n)[i] <= '9',
    decreases n,
{
    if n < 10 {
        let s = decimal(n);
        assert(s.drop_last() =~= Seq::<char>::empty());
        assert(outside::digits_value(s.drop_last()) == Some(0nat));
        assert(s.last() as int == n + 48);
    } else {
        let s = decimal(n);
        law_decimal_reads_back(n / 10);
        assert(s.drop_last() =~= decimal(n / 10));
        assert(s.last() as int == n % 10 + 48);
        assert(n / 10 * 10 + n % 10 == n);
        if n / 10 < 10 {
            assert(decimal(n / 10)[0] as int == n / 10 + 48);
        }
    }
}

/// Two numbers are written alike only where they are equal.
pub proof fn law_decimal_tells_apart(a: nat, b: nat)
    ensures
        decimal(a) == decimal(b) <==> a == b,
{
    law_decimal_reads_back(a);
    law_decimal_reads_back(b);
}

/// A negative number is written with a minus sign, no other is.
pub proof fn law_signed_decimal_shows_the_sign(n: int)
    ensures
        n >= 0 ==> outside::digits_value(signed_decimal(n)) == Some(n as nat),
        n < 0 ==> signed_decimal(n)[0] == '-' && outside::digits_value(
            signed_decimal(n).drop_first(),
        ) == Some((-n) as nat),
{
    if n >= 0 {
        law_decimal_reads_back(n as nat);
    } else {
        law_decimal_reads_back((-n) as nat);
        reveal_strlit("-");
        assert(signed_decimal(n).drop_first() =~= decimal((-n) as nat));
    }
}

/// Grouping only sets a comma before each three digits counted from the right:
/// the groups, joined without the commas, are the number written out.
pub proof fn law_grouped_is_the_decimal_with_commas(n: nat)
    ensures
        join(split(grouped(n), ','), Seq::empty()) == decimal(n),
        1 <= split(grouped(n), ',')[0].len() <= 3,
        forall|i: int|
            1 <= i < split(grouped(n), ',').len() ==> (#[trigger] split(grouped(n), ',')[i]).len() == 3,
    decreases n,
{
    if n < 1000 {
        law_decimal_reads_back(n);
        assert(!decimal(n).contains(',')) by {
            if decimal(n).contains(',') {
                let k = choose|k: int| 0 <= k < decimal(n).len() && decimal(n)[k] == ',';
                assert('0' <= decimal(n)[k]);
            }
        }
        lemma_split_one(decimal(n), ',');
        if n >= 10 {
            law_decimal_reads_back(n / 10);
            if n >= 100 {
                assert(n / 10 / 10 < 10);
                assert(decimal(n / 10 / 10).len() == 1);
            }
        }
    } else {
        let front = grouped(n / 1000);
        let tail = seq![digit(n / 100 % 10), digit(n / 10 % 10), digit(n % 10)];
        law_grouped_is_the_decimal_with_commas(n / 1000);
        assert(!tail.contains(',')) by {
            assert(tail[0] as int == n / 100 % 10 + 48);
            assert(tail[1] as int == n / 10 % 10 + 48);
            assert(tail[2] as int == n % 10 + 48);
        }
        lemma_split_more(front, tail, ',');
        assert(grouped(n) =~= front.push(',') + tail);
        lemma_split_pieces(front, ',');
        let pieces = split(front, ',');
        assert(pieces.push(tail).drop_last() =~= pieces);
        assert(join(pieces.push(tail), Seq::empty()) =~= decimal(n / 1000) + tail);
        assert(n / 10 / 10 == n / 100);
        assert(n / 100 / 10 == n / 1000);
        assert(decimal(n) == decimal(n / 10).push(digit(n % 10)));
        assert(decimal(n / 10) == decimal(n / 10 / 10).push(digit(n / 10 % 10)));
        assert(decimal(n / 100) == decimal(n / 100 / 10).push(digit(n / 100 % 10)));
        assert(decimal(n) =~= decimal(n / 1000) + tail);
    }
}

/// What stands behind the last separator is the last piece.
pub proof fn law_after_last_is_the_last_piece(s: Seq<char>, c: char)
    ensures
        after_last(s, c) == split(s, c).last(),
        !after_last(s, c).contains(c),
    decreases s.len(),
{
    lemma_split_pieces(s, c);
    if s.len() > 0 && s.last() != c {
        law_after_last_is_the_last_piece(s.drop_last(), c);
    }
}

/// Case folding turns the 26 letters into each other and leaves every other
/// character alone, so two texts are alike exactly where their capitals are.
pub proof fn law_case_folds_letters_alone(a: Seq<char>, b: Seq<char>)
    ensures
        ascii_lower(a).len() == a.len(),
        ascii_upper(a).len() == a.len(),
        forall|i: int|
            0 <= i < a.len() ==> (#[trigger] ascii_lower(a)[i]) as int == a[i] as int + (if 65
                <= a[i] as int <= 90 {
                32int
            } else {
                0
            }),
        forall|i: int|
            0 <= i < a.len() ==> (#[trigger] ascii_upper(a)[i]) as int == a[i] as int - (if 97
                <= a[i] as int <= 122 {
                32int
            } else {
                0
            }),
        ascii_lower(ascii_upper(a)) == ascii_lower(a),
        ascii_upper(ascii_lower(a)) == ascii_upper(a),
        alike(a, a),
        alike(a, b) <==> alike(b, a),
        alike(a, b) <==> ascii_upper(a) == ascii_upper(b),
{
    lemma_case(a);
    lemma_case(b);
}

proof fn lemma_case(a: Seq<char>)
    ensures
        ascii_lower(ascii_upper(a)) == ascii_lower(a),
        ascii_upper(ascii_lower(a)) == ascii_upper(a),
{
    assert(ascii_lower(ascii_upper(a)) =~= ascii_lower(a));
    assert(ascii_upper(ascii_lower(a)) =~= ascii_upper(a));
}

/// Texts are ordered by the first character in which they differ, and a text
/// stands before every longer one that it begins.
pub proof fn law_text_order_is_by_first_difference(a: Seq<char>, b: Seq<char>, k: int)
    requires
        0 <= k <= a.len(),
        k <= b.len(),
        forall|i: int| 0 <= i < k ==> #[trigger] a[i] == b[i],
    ensures
        k < a.len() && k < b.len() && a[k] != b[k] ==> (text_lt(a, b) <==> (a[k] as int) < (
        b[k] as int)),
        k == a.len() ==> (text_lt(a, b) <==> k < b.len()),
    decreases k,
{
    if k > 0 {
        let x = a.drop_first();
        let y = b.drop_first();
        assert(a[0] == b[0]);
        assert forall|i: int| 0 <= i < k - 1 implies #[trigger] x[i] == y[i] by {
            assert(a[i + 1] == b[i + 1]);
        }
        law_text_order_is_by_first_difference(x, y, k - 1);
    }
}

/// The words of a text are its runs without white space: none is empty, none
/// holds white space, and in order they are what is left without it.
pub proof fn law_words_are_what_white_space_parts(s: Seq<char>)
    ensures
        forall|i: int| 0 <= i < words(s).len() ==> (#[trigger] words(s)[i]).len() > 0,
        forall|i: int, k: int|
            0 <= i < words(s).len() && 0 <= k < words(s)[i].len() ==> !is_white(
                #[trigger] words(s)[i][k],
            ),
        join(words(s), Seq::empty()) == s.filter(|c: char| !is_white(c)),
        s.len() > 0 && !is_white(s.last()) ==> words(s).len() > 0,
    decreases s.len(),
{
    reveal(Seq::filter);
    if s.len() == 0 {
        assert(join(words(s), Seq::empty()) =~= s.filter(|c: char| !is_white(c)));
    } else {
        let front = s.drop_last();
        law_words_are_what_white_space_parts(front);
        let before = words(front);
        let kept = front.filter(|c: char| !is_white(c));
        if is_white(s.last()) {
        } else if s.len() >= 2 && !is_white(s[s.len() - 2]) {
            assert(front.last() == s[s.len() - 2]);
            let now = before.drop_last().push(before.last().push(s.last()));
            assert(now.drop_last() =~= before.drop_last());
            assert(before.last() == before[before.len() - 1]);
            assert forall|i: int, k: int|
                0 <= i < now.len() && 0 <= k < now[i].len() implies !is_white(
                #[trigger] now[i][k],
            ) by {
                if i < before.len() - 1 {
                    assert(now[i] == before[i]);
                    assert(!is_white(before[i][k]));
                } else if k < before.last().len() {
                    assert(now[i][k] == before[before.len() - 1][k]);
                    assert(!is_white(before[before.len() - 1][k]));
                }
            }
            assert(join(now, Seq::empty()) =~= join(before, Seq::empty()).push(s.last()));
        } else {
            let now = before.push(seq![s.last()]);
            assert(now.drop_last() =~= before);
            assert(join(now, Seq::empty()) =~= join(before, Seq::empty()).push(s.last()));
            assert forall|i: int, k: int|
                0 <= i < now.len() && 0 <= k < now[i].len() implies !is_white(
                #[trigger] now[i][k],
            ) by {
                if i < before.len() {
                    assert(now[i] == before[i]);
                    assert(!is_white(before[i][k]));
                }
            }
        }
    }
}

/// A cut after `n` bytes keeps a beginning of the text: of exactly `n` bytes, or
/// the whole text where it has fewer.
pub proof fn law_byte_prefix_is_a_beginning(s: Seq<char>, n: nat)
    requires
        byte_prefix(s, n) is Some,
    ensures
        begins(s, byte_prefix(s, n)->0),
        utf8_len(byte_prefix(s, n)->0) == n || byte_prefix(s, n)->0 == s && utf8_len(s) < n,
    decreases s.len(),
{
    if n == 0 {
        assert(s.subrange(0, 0) =~= Seq::<char>::empty());
    } else if s.len() == 0 {
        assert(s =~= Seq::<char>::empty());
        assert(s.subrange(0, 0) =~= s);
    } else {
        let rest = s.drop_first();
        let m = (n - utf8_width(s[0])) as nat;
        law_byte_prefix_is_a_beginning(rest, m);
        let cut = byte_prefix(rest, m)->0;
        lemma_utf8_len_first(s[0], cut);
        lemma_utf8_len_first(s[0], rest);
        assert(seq![s[0]] + rest =~= s);
        let whole = seq![s[0]] + cut;
        assert(rest.subrange(0, cut.len() as int) == cut);
        assert forall|i: int| 0 <= i < whole.len() implies s[i] == whole[i] by {
            if i > 0 {
                assert(rest[i - 1] == rest.subrange(0, cut.len() as int)[i - 1]);
            }
        }
        assert(s.subrange(0, whole.len() as int) =~= whole);
    }
}

proof fn lemma_utf8_len_first(c: char, s: Seq<char>)
    ensures
        utf8_len(seq![c] + s) == utf8_width(c) + utf8_len(s),
    decreases s.len(),
{
    let whole = seq![c] + s;
    if s.len() == 0 {
        assert(whole.drop_last() =~= Seq::<char>::empty());
        assert(utf8_len(whole.drop_last()) == 0);
    } else {
        lemma_utf8_len_first(c, s.drop_last());
        assert(whole.drop_last() =~= seq![c] + s.drop_last());
    }
}

// What a text holds stays in it as more is written behind it.

pub proof fn lemma_begins_more(s: Seq<char>, more: Seq<char>, prefix: Seq<char>)
    requires
        begins(s, prefix),
    ensures
        begins(s + more, prefix),
{
    assert((s + more).subrange(0, prefix.len() as int) =~= s.subrange(0, prefix.len() as int));
}

pub proof fn lemma_begins_self(s: Seq<char>)
    ensures
        begins(s, s),
{
    assert(s.subrange(0, s.len() as int) =~= s);
}

pub proof fn lemma_begins_through(s: Seq<char>, middle: Seq<char>, prefix: Seq<char>)
    requires
        begins(s, middle),
        begins(middle, prefix),
    ensures
        begins(s, prefix),
{
    assert(s.subrange(0, prefix.len() as int) =~= s.subrange(0, middle.len() as int).subrange(
        0,
        prefix.len() as int,
    ));
}

pub proof fn lemma_holds_within(before: Seq<char>, part: Seq<char>, after: Seq<char>)
    ensures
        holds(before + part + after, part),
{
    let s = before + part + after;
    assert(s.subrange(before.len() as int, (before.len() + part.len()) as int) =~= part);
    assert(stands_at(s, part, before.len() as int));
}

pub proof fn lemma_holds_last(before: Seq<char>, part: Seq<char>)
    ensures
        holds(before + part, part),
{
    lemma_holds_within(before, part, Seq::empty());
    assert(before + part + Seq::<char>::empty() =~= before + part);
}

pub proof fn lemma_holds_begun(s: Seq<char>, prefix: Seq<char>, part: Seq<char>)
    requires
        begins(s, prefix),
        holds(prefix, part),
    ensures
        holds(s, part),
{
    let i = choose|i: int| stands_at(prefix, part, i);
    assert(s.subrange(i, i + part.len()) =~= prefix.subrange(i, i + part.len())) by {
        assert forall|k: int| 0 <= k < part.len() implies #[trigger] s.subrange(
            i,
            i + part.len(),
        )[k] == prefix.subrange(i, i + part.len())[k] by {
            assert(s.subrange(0, prefix.len() as int)[i + k] == prefix[i + k]);
        }
    }
    assert(stands_at(s, part, i));
}

/// Trimming takes every leading character off and nothing more.
pub proof fn law_trimming_takes_leading_characters(s: Seq<char>, c: char)
    ensures
        trim_start(s, c).len() <= s.len(),
        s.skip(s.len() - trim_start(s, c).len()) == trim_start(s, c),
        forall|i: int| 0 <= i < s.len() - trim_start(s, c).len() ==> #[trigger] s[i] == c,
        trim_start(s, c).len() > 0 ==> trim_start(s, c)[0] != c,
    decreases s.len(),
{
    if s.len() > 0 && s[0] == c {
        let rest = s.drop_first();
        law_trimming_takes_leading_characters(rest, c);
        let t = trim_start(s, c);
        assert(s.skip(s.len() - t.len()) =~= rest.skip(rest.len() - t.len()));
        assert forall|i: int| 0 <= i < s.len() - t.len() implies #[trigger] s[i] == c by {
            if i > 0 {
                assert(rest[i - 1] == s[i]);
            }
        }
    } else {
        assert(s.skip(0) =~= s);
    }
}

/// A text parts at the first place where a marker stands, and does not part only
/// where it holds none.
pub proof fn law_text_parts_at_the_first_marker(s: Seq<char>, marker: Seq<char>)
    ensures
        split_at_marker(s, marker) is Some <==> holds(s, marker),
        split_at_marker(s, marker) matches Some(halves) ==> s == halves.0 + marker + halves.1
            && forall|j: int| 0 <= j < halves.0.len() ==> !stands_at(s, marker, j),
{
    lemma_find_from(s, marker, 0);
    lemma_split_at_marker(s, marker);
    if holds(s, marker) {
        let i = choose|i: int| stands_at(s, marker, i);
        assert(find_from(s, marker, 0) is Some);
    }
    if let Some(k) = find_from(s, marker, 0) {
        assert(stands_at(s, marker, k));
        assert(s.take(k).len() == k);
    }
}

/// A part stands in a text where its characters do.
pub proof fn law_parts_stand_where_their_characters_do(s: Seq<char>, part: Seq<char>, i: int)
    ensures
        stands_at(s, part, i) <==> 0 <= i && i + part.len() <= s.len() && forall|k: int|
            0 <= k < part.len() ==> s[i + k] == #[trigger] part[k],
        begins(s, part) <==> stands_at(s, part, 0),
{
    if 0 <= i && i + part.len() <= s.len() {
        let window = s.subrange(i, i + part.len());
        if window == part {
            assert forall|k: int| 0 <= k < part.len() implies s[i + k] == #[trigger] part[k] by {
                assert(window[k] == part[k]);
            }
        }
        if forall|k: int| 0 <= k < part.len() ==> s[i + k] == #[trigger] part[k] {
            assert(window =~= part);
        }
    }
}

} // verus!
