//! The property line parser: turns one physical line into an optional
//! `(key, value)` pair or bare key.
//!
//! Rules, in order: trim the line; an empty or `#`/`!`-prefixed line is no
//! entry; a line without `=` is no entry; otherwise the text before the first
//! `=` (trimmed) is the key — empty keys make the line opaque — and the text
//! after the first `=` (trimmed) is the value.

use vstd::prelude::*;

verus! {

/// Whitespace as the parser trims it: the ASCII whitespace characters.
pub open spec fn is_ws(c: char) -> bool {
    c == ' ' || c == '\t' || c == '\n' || c == '\r' || c == '\u{b}' || c == '\u{c}'
}

/// The number of leading whitespace characters of `s`.
pub open spec fn ws_prefix_len(s: Seq<char>) -> nat
    decreases s.len(),
{
    if s.len() == 0 || !is_ws(s[0]) {
        0
    } else {
        1 + ws_prefix_len(s.drop_first())
    }
}

/// The number of trailing whitespace characters of `s`.
pub open spec fn ws_suffix_len(s: Seq<char>) -> nat
    decreases s.len(),
{
    if s.len() == 0 || !is_ws(s.last()) {
        0
    } else {
        1 + ws_suffix_len(s.drop_last())
    }
}

/// `s` with leading and trailing whitespace removed.
pub open spec fn trim_spec(s: Seq<char>) -> Seq<char> {
    let rest = s.subrange(ws_prefix_len(s) as int, s.len() as int);
    rest.subrange(0, rest.len() - ws_suffix_len(rest))
}

pub proof fn lemma_ws_prefix_len_le(s: Seq<char>)
    ensures
        ws_prefix_len(s) <= s.len(),
    decreases s.len(),
{
    if s.len() != 0 && is_ws(s[0]) {
        lemma_ws_prefix_len_le(s.drop_first());
    }
}

pub proof fn lemma_ws_suffix_len_le(s: Seq<char>)
    ensures
        ws_suffix_len(s) <= s.len(),
    decreases s.len(),
{
    if s.len() != 0 && is_ws(s.last()) {
        lemma_ws_suffix_len_le(s.drop_last());
    }
}

/// `ws_prefix_len` is the unique boundary: whitespace everywhere before it,
/// and not whitespace at it (unless the string ends there).
pub proof fn lemma_ws_prefix_len_is(s: Seq<char>, i: int)
    requires
        0 <= i <= s.len(),
        forall|k: int| 0 <= k < i ==> is_ws(s[k]),
        i < s.len() ==> !is_ws(s[i]),
    ensures
        ws_prefix_len(s) == i,
    decreases s.len(),
{
    if i == 0 {
    } else {
        assert(is_ws(s[0]));
        let rest = s.drop_first();
        assert(forall|k: int| 0 <= k < i - 1 ==> is_ws(rest[k]));
        lemma_ws_prefix_len_is(rest, i - 1);
    }
}

/// `ws_suffix_len` is the unique boundary from the right.
pub proof fn lemma_ws_suffix_len_is(s: Seq<char>, j: int)
    requires
        0 <= j <= s.len(),
        forall|k: int| j <= k < s.len() ==> is_ws(s[k]),
        j > 0 ==> !is_ws(s[j - 1]),
    ensures
        ws_suffix_len(s) == s.len() - j,
    decreases s.len(),
{
    if j == s.len() {
    } else {
        assert(is_ws(s.last()));
        let rest = s.drop_last();
        assert(forall|k: int| j <= k < rest.len() ==> is_ws(rest[k]));
        lemma_ws_suffix_len_is(rest, j);
    }
}

/// Decides `is_ws` in executable code.
pub fn is_ws_char(c: char) -> (r: bool)
    ensures
        r == is_ws(c),
{
    c == ' ' || c == '\t' || c == '\n' || c == '\r' || c == '\u{b}' || c == '\u{c}'
}

/// Removes leading and trailing whitespace from `s`.
pub fn trim(s: &str) -> (r: &str)
    ensures
        r@ == trim_spec(s@),
{
    let n = s.unicode_len();
    let mut a: usize = 0;
    while a < n && is_ws_char(s.get_char(a))
        invariant
            n == s@.len(),
            0 <= a <= n,
            forall|k: int| 0 <= k < a ==> is_ws(s@[k]),
        decreases n - a,
    {
        a = a + 1;
    }
    proof {
        lemma_ws_prefix_len_is(s@, a as int);
    }
    let mut b: usize = n;
    while b > a && is_ws_char(s.get_char(b - 1))
        invariant
            n == s@.len(),
            a <= b <= n,
            forall|k: int| b <= k < n ==> is_ws(s@[k]),
        decreases b,
    {
        b = b - 1;
    }
    proof {
        let rest = s@.subrange(a as int, n as int);
        assert(forall|k: int| b - a <= k < rest.len() ==> is_ws(#[trigger] rest[k]));
        if b > a {
            assert(!is_ws(rest[b - a - 1]));
        }
        lemma_ws_suffix_len_is(rest, b - a);
        assert(rest.subrange(0, b - a) =~= s@.subrange(a as int, b as int));
    }
    s.substring_char(a, b)
}

/// Whether `c` occurs in `s`.
pub open spec fn contains_char(s: Seq<char>, c: char) -> bool {
    exists|i: int| 0 <= i < s.len() && s[i] == c
}

/// The index of the first occurrence of `c` in `s` (`s.len()` if absent).
pub open spec fn first_index_of(s: Seq<char>, c: char) -> nat
    decreases s.len(),
{
    if s.len() == 0 {
        0
    } else if s[0] == c {
        0
    } else {
        1 + first_index_of(s.drop_first(), c)
    }
}

/// `first_index_of` is the unique first position of `c`.
pub proof fn lemma_first_index_of_is(s: Seq<char>, c: char, i: int)
    requires
        0 <= i <= s.len(),
        forall|k: int| 0 <= k < i ==> s[k] != c,
        i < s.len() ==> s[i] == c,
    ensures
        first_index_of(s, c) == i,
    decreases s.len(),
{
    if i == 0 {
    } else {
        let rest = s.drop_first();
        assert(forall|k: int| 0 <= k < i - 1 ==> rest[k] != c);
        lemma_first_index_of_is(rest, c, i - 1);
    }
}

/// Finds the first occurrence of `c` in `s`, if any.
pub fn find_char(s: &str, c: char) -> (r: Option<usize>)
    ensures
        match r {
            Some(i) => contains_char(s@, c) && i == first_index_of(s@, c) && i < s@.len(),
            None => !contains_char(s@, c),
        },
{
    let n = s.unicode_len();
    let mut i: usize = 0;
    while i < n && s.get_char(i) != c
        invariant
            n == s@.len(),
            0 <= i <= n,
            forall|k: int| 0 <= k < i ==> s@[k] != c,
        decreases n - i,
    {
        i = i + 1;
    }
    proof {
        lemma_first_index_of_is(s@, c, i as int);
    }
    if i < n {
        Some(i)
    } else {
        None
    }
}

/// The key of a property line, if the line is an entry: the trimmed text
/// before the first `=` of the trimmed line. Comments (`#` or `!`), blank
/// lines, lines without `=` and lines with an empty key carry no key.
pub open spec fn line_key(line: Seq<char>) -> Option<Seq<char>> {
    let t = trim_spec(line);
    if t.len() == 0 {
        None
    } else if t[0] == '#' || t[0] == '!' {
        None
    } else if !contains_char(t, '=') {
        None
    } else {
        let k = trim_spec(t.subrange(0, first_index_of(t, '=') as int));
        if k.len() == 0 {
            None
        } else {
            Some(k)
        }
    }
}

/// The `(key, value)` pair of a property line, if the line is an entry: the
/// key as in [`line_key`], the value the trimmed text after the first `=`
/// (further `=` characters belong to the value).
pub open spec fn line_entry(line: Seq<char>) -> Option<(Seq<char>, Seq<char>)> {
    match line_key(line) {
        None => None,
        Some(k) => {
            let t = trim_spec(line);
            let v = trim_spec(t.subrange(first_index_of(t, '=') as int + 1, t.len() as int));
            Some((k, v))
        },
    }
}

/// Parses the key of a property line.
pub fn parse_key(line: &str) -> (r: Option<String>)
    ensures
        r.deep_view() == line_key(line@),
{
    let t = trim(line);
    let n = t.unicode_len();
    if n == 0 {
        return None;
    }
    let first = t.get_char(0);
    if first == '#' || first == '!' {
        return None;
    }
    let eq = match find_char(t, '=') {
        None => {
            return None;
        },
        Some(i) => i,
    };
    let key = trim(t.substring_char(0, eq));
    if key.unicode_len() == 0 {
        None
    } else {
        Some(key.to_owned())
    }
}

/// Parses a property line into its `(key, value)` pair.
pub fn parse_line(line: &str) -> (r: Option<(String, String)>)
    ensures
        r.deep_view() == line_entry(line@),
{
    let t = trim(line);
    let n = t.unicode_len();
    if n == 0 {
        return None;
    }
    let first = t.get_char(0);
    if first == '#' || first == '!' {
        return None;
    }
    let eq = match find_char(t, '=') {
        None => {
            return None;
        },
        Some(i) => i,
    };
    let key = trim(t.substring_char(0, eq));
    if key.unicode_len() == 0 {
        return None;
    }
    let value = trim(t.substring_char(eq + 1, n));
    Some((key.to_owned(), value.to_owned()))
}

} // verus!
